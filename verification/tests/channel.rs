use lbm::lbm::assign;
use lbm::lbm::bounce_indices;
use lbm::lbm::channel_bound;
use lbm::lbm::constant;
use lbm::lbm::gather;
use lbm::lbm::locate;
use lbm::lbm::scatter;
use lbm::lbm::set_row;
use lbm::lbm::ChannelLayout;
use lbm::streaming::stream_2d;

fn node(nx: usize, i: usize, j: usize) -> usize {
    i + nx * j
}

#[test]
fn channel_bound_marks_walls_and_obstacle() {
    let bound = channel_bound(5, 5, 2, 2, 1);
    assert_eq!(bound.len(), 25);
    for i in 0..5 {
        assert!(bound[node(5, i, 0)]);
        assert!(bound[node(5, i, 4)]);
    }
    let obstacle = [(2, 1), (1, 2), (2, 2), (3, 2), (2, 3)];
    for j in 1..4 {
        for i in 0..5 {
            let expected = obstacle.contains(&(i, j));
            assert_eq!(bound[node(5, i, j)], expected, "node ({}, {})", i, j);
        }
    }
    assert_eq!(bound.iter().filter(|b| **b).count(), 15);
}

#[test]
fn channel_bound_with_huge_obstacle_parameters() {
    let bound = channel_bound(2, 3, u64::MAX, u64::MAX, u64::MAX);
    // the middle row lies outside the disc: its distance exceeds the radius
    assert!(!bound[node(2, 0, 1)]);
    assert!(!bound[node(2, 1, 1)]);
    assert!(bound[node(2, 0, 0)]);
    assert!(bound[node(2, 1, 2)]);
}

#[test]
fn channel_bound_obstacle_touching_the_edge() {
    let bound = channel_bound(4, 4, 0, 1, 1);
    // (0, 1) and (1, 1) and (0, 2) lie in the disc; (1, 2) does not
    assert!(bound[node(4, 0, 1)]);
    assert!(bound[node(4, 1, 1)]);
    assert!(bound[node(4, 0, 2)]);
    assert!(!bound[node(4, 1, 2)]);
    assert!(!bound[node(4, 3, 1)]);
}

#[test]
fn locate_lists_marked_positions_in_order() {
    let bound = vec![false, true, true, false, true];
    assert_eq!(locate(&bound), vec![1, 2, 4]);
    assert_eq!(locate(&vec![false, false]), Vec::<u64>::new());
    assert_eq!(locate(&Vec::new()), Vec::<u64>::new());
}

#[test]
fn bounce_indices_pair_opposite_directions() {
    let on: Vec<u64> = vec![1, 4];
    let n = 6;
    let (to_reflect, reflected) = bounce_indices(&on, n);
    let opp = [3u64, 4, 1, 2, 7, 8, 5, 6];
    assert_eq!(to_reflect.len(), 16);
    assert_eq!(reflected.len(), 16);
    for k in 0..8u64 {
        for m in 0..2usize {
            let p = k as usize * 2 + m;
            assert_eq!(to_reflect[p], on[m] + 6 * (k + 1));
            assert_eq!(reflected[p], on[m] + 6 * opp[k as usize]);
        }
    }
    let (a, b) = bounce_indices(&Vec::new(), 6);
    assert!(a.is_empty() && b.is_empty());
}

#[test]
fn gather_scatter_assign_set_row_constant() {
    let src = vec![10, 11, 12, 13];
    assert_eq!(gather(&src, &vec![3, 0, 3]), vec![13, 10, 13]);
    let mut dst = vec![0, 0, 0, 0];
    scatter(&mut dst, &vec![2, 0], &vec![7, 8]);
    assert_eq!(dst, vec![8, 0, 7, 0]);
    assign(&mut dst, &vec![1, 2], 5);
    assert_eq!(dst, vec![8, 5, 5, 0]);
    let mut field = vec![0; 6];
    set_row(&mut field, 3, 2, 1, 9);
    assert_eq!(field, vec![0, 9, 0, 0, 9, 0]);
    assert_eq!(constant(2.5f32, 3), vec![2.5, 2.5, 2.5]);
}

#[test]
fn stream_2d_moves_each_population_one_step() {
    let nx = 3;
    let ny = 2;
    let f: Vec<f32> = (0..54).map(|p| p as f32).collect();
    let out = stream_2d(&f, nx, ny);
    // east population at (1, 0) came from (0, 0)
    assert_eq!(out[1 + 6], 6.0);
    // west population (k = 3) at (2, 1) came from (0, 1), wrapping around
    assert_eq!(out[2 + 3 + 18], (0 + 3 + 18) as f32);
    // streaming only permutes the populations
    let total: f32 = out.iter().sum();
    assert_eq!(total, f.iter().sum::<f32>());
}

#[test]
fn channel_layout_lists() {
    let c = ChannelLayout::new(5, 5, 2, 2, 1);
    assert_eq!((c.nx, c.ny, c.total_nodes), (5, 5, 25));
    assert_eq!(c.on.len(), 15);
    assert_eq!(c.on[..5].to_vec(), vec![0, 1, 2, 3, 4]);
    assert_eq!(c.on[5], 7);
    assert_eq!(c.nb_index.len(), 225);
    assert_eq!(c.to_reflect.len(), 120);
    assert_eq!(c.reflected.len(), 120);
    let mut sorted_to = c.to_reflect.clone();
    let mut sorted_re = c.reflected.clone();
    sorted_to.sort();
    sorted_re.sort();
    assert_eq!(sorted_to, sorted_re);
}

#[test]
fn channel_stream_matches_grid_streaming() {
    let c = ChannelLayout::new(4, 3, 1, 1, 0);
    let f: Vec<u32> = (0..108).collect();
    assert_eq!(c.stream(&f), stream_2d(&f, 4, 3));
}

#[test]
fn channel_bounce_back_reverses_solid_populations() {
    let c = ChannelLayout::new(4, 3, 1, 1, 0);
    let n = 12;
    let streamed: Vec<i64> = (0..108).map(|p| 1000 + p).collect();
    let relaxed: Vec<i64> = (0..108).map(|p| -p).collect();
    let mut f = relaxed.clone();
    c.bounce_back(&mut f, &streamed);
    let opp = [0usize, 3, 4, 1, 2, 7, 8, 5, 6];
    for p in 0..108usize {
        let nd = p % n;
        let k = p / n;
        if c.bound[nd] && k >= 1 {
            assert_eq!(f[p], streamed[nd + n * opp[k]], "population {}", p);
        } else {
            assert_eq!(f[p], relaxed[p], "population {}", p);
        }
    }
    // node (1, 1) is the one-node obstacle; node (2, 1) is fluid
    assert_eq!(f[5 + n * 1], streamed[5 + n * 3]);
    assert_eq!(f[6 + n * 1], relaxed[6 + n * 1]);
}

#[test]
fn channel_boundaries_on_macroscopic_fields() {
    let c = ChannelLayout::new(4, 3, 1, 1, 0);
    let mut density = vec![2.0f32; 12];
    let mut ux = vec![0.5f32; 12];
    let mut uy = vec![0.25f32; 12];
    c.impose_boundaries(&mut density, &mut ux, &mut uy, 1.0, 0.1, 0.0);
    for t in 0..12 {
        let i = t % 4;
        let expected_density = if i == 0 || i == 3 {
            1.0
        } else if c.bound[t] {
            0.0
        } else {
            2.0
        };
        assert_eq!(density[t], expected_density, "density at {}", t);
        let expected_ux = if c.bound[t] {
            0.0
        } else if i == 0 {
            0.1
        } else {
            0.5
        };
        assert_eq!(ux[t], expected_ux, "ux at {}", t);
        assert_eq!(uy[t], if c.bound[t] { 0.0 } else { 0.25 });
    }
    // fluid inlet node (0, 1) gets the inflow velocity, the obstacle node none
    assert_eq!(ux[4], 0.1);
    assert_eq!(ux[5], 0.0);
}

#[test]
fn channel_initial_fields() {
    let c = ChannelLayout::new(4, 3, 1, 1, 0);
    let (density, ux, uy) = c.initial_fields(1.0f32, 0.1f32, 0.0f32);
    for t in 0..12 {
        if c.bound[t] {
            assert_eq!((density[t], ux[t]), (0.0, 0.0));
        } else {
            assert_eq!((density[t], ux[t]), (1.0, 0.1));
        }
        assert_eq!(uy[t], 0.0);
    }
    assert_eq!(c.bound.iter().filter(|b| **b).count(), 9);
}

#[test]
fn channel_single_row_is_all_wall() {
    let c = ChannelLayout::new(3, 1, 100, 100, 0);
    assert_eq!(c.on, vec![0, 1, 2]);
    assert_eq!(c.to_reflect.len(), 24);
}
