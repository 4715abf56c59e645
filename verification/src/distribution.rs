//! The D2Q9 stencil: nine directions, their velocities, weights and
//! opposites, with the moment identities the equilibrium rests on.

use vstd::prelude::*;
use crate::geometry::Direction;
use crate::geometry::spec_unit_vector;
use crate::traits::Distribution;

verus! {

/// Common denominator of the D2Q9 weights.
pub const WEIGHT_DENOMINATOR: u64 = 36;

/// The nine directions of the D2Q9 stencil, in index order:
///
/// ```text
///  c6  c2   c5
///    \  |  /
///  c3 -c0 - c1
///    /  |  \
///  c7  c4   c8
/// ```
#[derive(Clone, Copy, Debug, PartialEq, Eq, Structural)]
pub enum D2Q9 {
    C,
    E,
    N,
    W,
    S,
    NE,
    NW,
    SW,
    SE,
}

/// x components of the direction velocities.
pub open spec fn lattice_ex() -> Seq<int> {
    seq![0, 1, 0, -1, 0, 1, -1, -1, 1]
}

/// y components of the direction velocities.
pub open spec fn lattice_ey() -> Seq<int> {
    seq![0, 0, 1, 0, -1, 1, 1, -1, -1]
}

/// Weight numerators over `WEIGHT_DENOMINATOR`: 4/9, 1/9 (axes), 1/36
/// (diagonals).
pub open spec fn lattice_weights() -> Seq<int> {
    seq![16, 4, 4, 4, 4, 1, 1, 1, 1]
}

/// Index of the direction opposite to direction `k`.
pub open spec fn opposite(k: int) -> int {
    seq![0int, 3, 4, 1, 2, 7, 8, 5, 6][k]
}

/// The position of a direction in index order.
pub open spec fn spec_index(d: D2Q9) -> int {
    match d {
        D2Q9::C => 0,
        D2Q9::E => 1,
        D2Q9::N => 2,
        D2Q9::W => 3,
        D2Q9::S => 4,
        D2Q9::NE => 5,
        D2Q9::NW => 6,
        D2Q9::SW => 7,
        D2Q9::SE => 8,
    }
}

/// The direction at position `k` in index order.
pub open spec fn spec_of_index(k: int) -> D2Q9 {
    if k == 0 {
        D2Q9::C
    } else if k == 1 {
        D2Q9::E
    } else if k == 2 {
        D2Q9::N
    } else if k == 3 {
        D2Q9::W
    } else if k == 4 {
        D2Q9::S
    } else if k == 5 {
        D2Q9::NE
    } else if k == 6 {
        D2Q9::NW
    } else if k == 7 {
        D2Q9::SW
    } else {
        D2Q9::SE
    }
}

/// The geometric direction of a D2Q9 direction.
pub open spec fn spec_direction(d: D2Q9) -> Direction {
    match d {
        D2Q9::C => Direction::C,
        D2Q9::E => Direction::E,
        D2Q9::N => Direction::N,
        D2Q9::W => Direction::W,
        D2Q9::S => Direction::S,
        D2Q9::NE => Direction::NE,
        D2Q9::NW => Direction::NW,
        D2Q9::SW => Direction::SW,
        D2Q9::SE => Direction::SE,
    }
}

/// The D2Q9 direction of a geometric direction.
pub open spec fn spec_from_direction(d: Direction) -> D2Q9 {
    match d {
        Direction::C => D2Q9::C,
        Direction::E => D2Q9::E,
        Direction::N => D2Q9::N,
        Direction::W => D2Q9::W,
        Direction::S => D2Q9::S,
        Direction::NE => D2Q9::NE,
        Direction::NW => D2Q9::NW,
        Direction::SW => D2Q9::SW,
        Direction::SE => D2Q9::SE,
    }
}


/// `x` to the power `a`, for the degrees up to two that the moments use.
pub open spec fn monomial(x: int, a: nat) -> int {
    if a == 0 {
        1
    } else if a == 1 {
        x
    } else {
        x * x
    }
}

/// Sum over the directions `0..n` of `w_k * ex_k^a * ey_k^b` (`a, b <= 2`), with the
/// weights as numerators over `WEIGHT_DENOMINATOR`.
pub open spec fn moment(a: nat, b: nat, n: int) -> int
    decreases n,
{
    if n <= 0 {
        0
    } else {
        moment(a, b, n - 1) + lattice_weights()[n - 1] * monomial(lattice_ex()[n - 1], a)
            * monomial(lattice_ey()[n - 1], b)
    }
}

/// The weights sum to one, their first moments vanish, and their second
/// moments are isotropic and equal to the squared sound speed
/// `c_squ = 1/3`: these are the identities the second-order equilibrium
/// `w (1 + 3 e.u + 4.5 (e.u)^2 - 1.5 u.u)` rests on.
pub proof fn lemma_weight_moments()
    ensures
        moment(0, 0, 9) == WEIGHT_DENOMINATOR,
        moment(1, 0, 9) == 0,
        moment(0, 1, 9) == 0,
        moment(2, 0, 9) * 3 == WEIGHT_DENOMINATOR,
        moment(0, 2, 9) * 3 == WEIGHT_DENOMINATOR,
        moment(1, 1, 9) == 0,
{
    reveal_with_fuel(moment, 10);
}

/// Every direction has an opposite: taking the opposite twice gives the
/// direction back, the opposite velocity is the negated velocity, the
/// weight is the same, and only the rest direction is its own opposite.
pub proof fn lemma_opposite(k: int)
    requires
        0 <= k < 9,
    ensures
        0 <= opposite(k) < 9,
        opposite(opposite(k)) == k,
        lattice_ex()[opposite(k)] == -lattice_ex()[k],
        lattice_ey()[opposite(k)] == -lattice_ey()[k],
        lattice_weights()[opposite(k)] == lattice_weights()[k],
        (opposite(k) == k) == (k == 0),
{
}

/// Index order, D2Q9 directions and geometric directions correspond one
/// to one, and a direction's velocity is its geometric unit vector.
pub proof fn lemma_direction_correspondence(d: D2Q9, g: Direction)
    ensures
        0 <= spec_index(d) < 9,
        spec_of_index(spec_index(d)) == d,
        spec_from_direction(spec_direction(d)) == d,
        spec_direction(spec_from_direction(g)) == g,
        spec_unit_vector(spec_direction(d)) == (
            lattice_ex()[spec_index(d)],
            lattice_ey()[spec_index(d)],
        ),
{
}

impl D2Q9 {
    /// The direction at position `v` in index order.
    fn new(v: usize) -> (d: D2Q9)
        requires
            v < 9,
        ensures
            spec_index(d) == v,
            d == spec_of_index(v as int),
    {
        if v == 0 {
            D2Q9::C
        } else if v == 1 {
            D2Q9::E
        } else if v == 2 {
            D2Q9::N
        } else if v == 3 {
            D2Q9::W
        } else if v == 4 {
            D2Q9::S
        } else if v == 5 {
            D2Q9::NE
        } else if v == 6 {
            D2Q9::NW
        } else if v == 7 {
            D2Q9::SW
        } else {
            D2Q9::SE
        }
    }
}

/// The block offsets `(k + 1) * n` of directions `1..=8` in an array of
/// `9 * n` populations.
pub open spec fn block_offsets(n: int) -> Seq<int> {
    Seq::new(8, |k: int| (k + 1) * n)
}

impl Distribution for D2Q9 {
    fn c_squ() -> (r: (u64, u64))
        ensures
            r == (1u64, 3u64),
    {
        (1, 3)
    }

    fn size() -> (n: usize)
        ensures
            n == 9,
    {
        9
    }

    fn dims() -> (d: [u64; 4])
        ensures
            d@ == seq![9u64, 1u64, 1u64, 1u64],
    {
        [9, 1, 1, 1]
    }

    fn all() -> (v: Vec<D2Q9>)
        ensures
            v.len() == 9,
            forall|k: int| 0 <= k < 9 ==> spec_index(#[trigger] v[k]) == k && v[k] == spec_of_index(k),
    {
        let mut v: Vec<D2Q9> = Vec::new();
        let mut k: usize = 0;
        while k < 9
            invariant
                k <= 9,
                v.len() == k,
                forall|m: int| 0 <= m < k ==> spec_index(#[trigger] v[m]) == m && v[m] == spec_of_index(m),
            decreases 9 - k,
        {
            v.push(D2Q9::new(k));
            k = k + 1;
        }
        v
    }

    fn ex() -> (v: Vec<i64>)
        ensures
            v.len() == 9,
            forall|k: int| 0 <= k < 9 ==> #[trigger] v[k] == lattice_ex()[k],
    {
        let v: Vec<i64> = vec![0, 1, 0, -1, 0, 1, -1, -1, 1];
        assert(v@ =~= seq![0i64, 1i64, 0i64, -1i64, 0i64, 1i64, -1i64, -1i64, 1i64]);
        v
    }

    fn ey() -> (v: Vec<i64>)
        ensures
            v.len() == 9,
            forall|k: int| 0 <= k < 9 ==> #[trigger] v[k] == lattice_ey()[k],
    {
        let v: Vec<i64> = vec![0, 0, 1, 0, -1, 1, 1, -1, -1];
        assert(v@ =~= seq![0i64, 0i64, 1i64, 0i64, -1i64, 1i64, 1i64, -1i64, -1i64]);
        v
    }

    fn weights() -> (v: Vec<u64>)
        ensures
            v.len() == 9,
            forall|k: int| 0 <= k < 9 ==> #[trigger] v[k] == lattice_weights()[k],
    {
        let t1: u64 = 16;
        let t2: u64 = 4;
        let t3: u64 = 1;
        let v: Vec<u64> = vec![t1, t2, t2, t2, t2, t3, t3, t3, t3];
        assert(v@ =~= seq![16u64, 4, 4, 4, 4, 1, 1, 1, 1]);
        v
    }

    fn current_indices(&self) -> (v: Vec<u64>)
        ensures
            v.len() == 8,
            forall|k: int| 0 <= k < 8 ==> #[trigger] v[k] == block_offsets(9)[k],
    {
        let mut v: Vec<u64> = Vec::new();
        let mut k: u64 = 0;
        while k < 8
            invariant
                k <= 8,
                v.len() == k,
                forall|m: int| 0 <= m < k ==> #[trigger] v[m] == block_offsets(9)[m],
            decreases 8 - k,
        {
            v.push((k + 1) * 9);
            k = k + 1;
        }
        v
    }

    fn opposite_indices(&self) -> (v: Vec<u64>)
        ensures
            v.len() == 8,
            forall|k: int| 0 <= k < 8 ==> #[trigger] v[k] == block_offsets(9)[k],
    {
        let mut v: Vec<u64> = Vec::new();
        let mut k: u64 = 0;
        while k < 8
            invariant
                k <= 8,
                v.len() == k,
                forall|m: int| 0 <= m < k ==> #[trigger] v[m] == block_offsets(9)[m],
            decreases 8 - k,
        {
            v.push((k + 1) * 9);
            k = k + 1;
        }
        v
    }

    fn direction(&self) -> (d: Direction)
        ensures
            d == spec_direction(*self),
    {
        match *self {
            D2Q9::C => Direction::C,
            D2Q9::E => Direction::E,
            D2Q9::N => Direction::N,
            D2Q9::W => Direction::W,
            D2Q9::S => Direction::S,
            D2Q9::NE => Direction::NE,
            D2Q9::NW => Direction::NW,
            D2Q9::SW => Direction::SW,
            D2Q9::SE => Direction::SE,
        }
    }

    fn from_direction(d: Direction) -> (r: Option<D2Q9>)
        ensures
            r == Some(spec_from_direction(d)),
    {
        Some(
            match d {
                Direction::C => D2Q9::C,
                Direction::E => D2Q9::E,
                Direction::N => D2Q9::N,
                Direction::W => D2Q9::W,
                Direction::S => D2Q9::S,
                Direction::NE => D2Q9::NE,
                Direction::NW => D2Q9::NW,
                Direction::SW => D2Q9::SW,
                Direction::SE => D2Q9::SE,
            },
        )
    }
}

} // verus!
