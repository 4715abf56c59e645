use lbm::distribution::D2Q9;
use lbm::distribution::WEIGHT_DENOMINATOR;
use lbm::geometry::Direction;
use lbm::traits::Distribution;

#[test]
fn d2q9_size_dims_and_sound_speed() {
    assert_eq!(D2Q9::size(), 9);
    assert_eq!(D2Q9::dims(), [9, 1, 1, 1]);
    assert_eq!(D2Q9::c_squ(), (1, 3));
}

#[test]
fn d2q9_velocities_follow_the_stencil_diagram() {
    assert_eq!(D2Q9::ex(), vec![0, 1, 0, -1, 0, 1, -1, -1, 1]);
    assert_eq!(D2Q9::ey(), vec![0, 0, 1, 0, -1, 1, 1, -1, -1]);
}

#[test]
fn d2q9_weights_are_four_ninths_ninths_and_thirty_sixths() {
    assert_eq!(WEIGHT_DENOMINATOR, 36);
    assert_eq!(D2Q9::weights(), vec![16, 4, 4, 4, 4, 1, 1, 1, 1]);
}

#[test]
fn d2q9_weight_moments() {
    let w = D2Q9::weights();
    let ex = D2Q9::ex();
    let ey = D2Q9::ey();
    let mut m00: i64 = 0;
    let mut m10: i64 = 0;
    let mut m01: i64 = 0;
    let mut m20: i64 = 0;
    let mut m02: i64 = 0;
    let mut m11: i64 = 0;
    for k in 0..9 {
        let wk = w[k] as i64;
        m00 += wk;
        m10 += wk * ex[k];
        m01 += wk * ey[k];
        m20 += wk * ex[k] * ex[k];
        m02 += wk * ey[k] * ey[k];
        m11 += wk * ex[k] * ey[k];
    }
    assert_eq!(m00, 36);
    assert_eq!(m10, 0);
    assert_eq!(m01, 0);
    // second moments equal c_squ = 1/3 of the denominator
    assert_eq!(m20 * 3, 36);
    assert_eq!(m02 * 3, 36);
    assert_eq!(m11, 0);
}

#[test]
fn d2q9_all_lists_the_directions_in_order() {
    let all = D2Q9::all();
    assert_eq!(
        all,
        vec![D2Q9::C, D2Q9::E, D2Q9::N, D2Q9::W, D2Q9::S, D2Q9::NE, D2Q9::NW, D2Q9::SW, D2Q9::SE]
    );
}

#[test]
fn d2q9_direction_round_trip() {
    let dirs = vec![
        Direction::C,
        Direction::E,
        Direction::N,
        Direction::W,
        Direction::S,
        Direction::NE,
        Direction::NW,
        Direction::SW,
        Direction::SE,
    ];
    let all = D2Q9::all();
    for k in 0..9 {
        assert_eq!(all[k].direction(), dirs[k]);
        assert_eq!(D2Q9::from_direction(dirs[k]), Some(all[k]));
    }
}

#[test]
fn d2q9_velocities_match_direction_vectors() {
    let all = D2Q9::all();
    let ex = D2Q9::ex();
    let ey = D2Q9::ey();
    for k in 0..9 {
        let v = all[k].direction().num_array();
        assert_eq!(v, [ex[k], ey[k]]);
    }
    assert_eq!(Direction::NW.num_array(), [-1, 1]);
}

#[test]
fn d2q9_block_offsets() {
    let expected: Vec<u64> = vec![9, 18, 27, 36, 45, 54, 63, 72];
    assert_eq!(D2Q9::E.current_indices(), expected);
    assert_eq!(D2Q9::C.opposite_indices(), expected);
}
