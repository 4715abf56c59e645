use lbm::geometry::Plane;
use lbm::grid::StructuredRectangular;

#[test]
fn plane_bottom_wall_holds_first_row() {
    let bottom = Plane::new((0, 1), (0, 0));
    assert!(bottom.contains(2, 0));
    assert!(!bottom.contains(2, 1));
    assert_eq!(bottom.generate(3, 2), vec![true, true, true, false, false, false]);
}

#[test]
fn plane_top_wall_holds_last_row() {
    let top = Plane::new((0, -1), (0, 2));
    assert!(top.contains(0, 2));
    assert!(!top.contains(0, 1));
    assert_eq!(
        top.generate(2, 3),
        vec![false, false, false, false, true, true]
    );
}

#[test]
fn plane_inflow_holds_first_column() {
    let inflow = Plane::new((1, 0), (0, 0));
    assert!(inflow.contains(0, 5));
    assert!(!inflow.contains(1, 0));
    assert_eq!(inflow.generate(3, 2), vec![true, false, false, true, false, false]);
}

#[test]
fn plane_on_empty_grid() {
    let inflow = Plane::new((1, 0), (0, 0));
    assert_eq!(inflow.generate(0, 4), Vec::<bool>::new());
}

#[test]
fn grid_two_and_three_dimensional() {
    let g2 = StructuredRectangular::new(3, 2, 0);
    assert_eq!(g2.dimensions, [3, 2, 1, 1]);
    assert_eq!(g2.size(), 6);
    let g1 = StructuredRectangular::new(3, 2, 1);
    assert_eq!(g1.dimensions, [3, 2, 1, 1]);
    assert_eq!(g1.size(), 6);
    let g3 = StructuredRectangular::new(3, 2, 4);
    assert_eq!(g3.dimensions, [3, 2, 4, 1]);
    assert_eq!(g3.size(), 24);
    assert_eq!((g3.x, g3.y, g3.z), (3, 2, 4));
}

#[test]
fn grid_main_index_is_identity() {
    let g = StructuredRectangular::new(2, 2, 0);
    let idx = g.main_index();
    assert_eq!(idx, (0..36).collect::<Vec<u64>>());
}

#[test]
fn grid_neighbors_index_pulls_from_upstream_node() {
    // 3 by 2 grid: 6 nodes, population (i, j, k) at i + 3 j + 6 k
    let g = StructuredRectangular::new(3, 2, 0);
    let nb = g.neighbors_index();
    assert_eq!(nb.len(), 54);
    // rest direction stays in place
    for p in 0..6 {
        assert_eq!(nb[p], p as u64);
    }
    // east at (0, 0) comes from (2, 0), wrapping around
    assert_eq!(nb[6], 8);
    // east at (1, 0) comes from (0, 0)
    assert_eq!(nb[7], 6);
    // north at (1, 0) comes from (1, 1), wrapping around
    assert_eq!(nb[13], 16);
    // south-west (k = 7, velocity (-1, -1)) at (2, 1) comes from (0, 0)
    assert_eq!(nb[2 + 3 + 42], 42);
}

#[test]
fn grid_neighbors_index_is_a_permutation() {
    let g = StructuredRectangular::new(4, 3, 0);
    let mut nb = g.neighbors_index();
    nb.sort();
    assert_eq!(nb, (0..108).collect::<Vec<u64>>());
}

#[test]
fn grid_neighbors_index_on_single_node() {
    let g = StructuredRectangular::new(1, 1, 0);
    assert_eq!(g.neighbors_index(), (0..9).collect::<Vec<u64>>());
}

#[test]
fn plane_supported_normals() {
    assert!(Plane::new((1, 0), (0, 0)).supported());
    assert!(Plane::new((0, 1), (0, 0)).supported());
    assert!(Plane::new((0, -1), (0, 4)).supported());
    assert!(!Plane::new((-1, 0), (0, 0)).supported());
    assert!(!Plane::new((1, 1), (0, 0)).supported());
}
