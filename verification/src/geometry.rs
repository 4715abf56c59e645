//! Lattice directions and the half-plane geometry used for channel walls.

use vstd::prelude::*;
use crate::layout::node_index;
use crate::layout::lemma_index_bound;

verus! {

/// The nine lattice directions of a two-dimensional node: the rest
/// direction and the four axis and four diagonal neighbours.
#[derive(Clone, Copy, Debug, PartialEq, Eq, Structural)]
pub enum Direction {
    C,
    E,
    N,
    W,
    S,
    NE,
    NW,
    SW,
    SE,
}

/// The unit lattice vector `(x, y)` of a direction.
pub open spec fn spec_unit_vector(d: Direction) -> (int, int) {
    match d {
        Direction::C => (0, 0),
        Direction::E => (1, 0),
        Direction::N => (0, 1),
        Direction::W => (-1, 0),
        Direction::S => (0, -1),
        Direction::NE => (1, 1),
        Direction::NW => (-1, 1),
        Direction::SW => (-1, -1),
        Direction::SE => (1, -1),
    }
}

impl Direction {
    /// The lattice vector of this direction as integer components.
    pub fn num_array(&self) -> (v: [i64; 2])
        ensures
            v@[0] == spec_unit_vector(*self).0,
            v@[1] == spec_unit_vector(*self).1,
    {
        match self {
            Direction::C => [0, 0],
            Direction::E => [1, 0],
            Direction::N => [0, 1],
            Direction::W => [-1, 0],
            Direction::S => [0, -1],
            Direction::NE => [1, 1],
            Direction::NW => [-1, 1],
            Direction::SW => [-1, -1],
            Direction::SE => [1, -1],
        }
    }
}

/// A half-plane given by an outward normal `n` and a point `x` on its
/// border.
#[derive(Clone, Copy, Debug)]
pub struct Plane {
    n: (isize, isize),
    x: (usize, usize),
}

/// The normals for which a plane can tell which nodes it holds: the
/// inflow side `(1, 0)`, the bottom wall `(0, 1)` and the top wall
/// `(0, -1)`.
pub open spec fn supported_normal(n: (isize, isize)) -> bool {
    n == (1isize, 0isize) || n == (0isize, 1isize) || n == (0isize, -1isize)
}

/// Whether the half-plane with normal `n` through `x` holds the node
/// `(px, py)`.
pub open spec fn half_plane_contains(n: (isize, isize), x: (usize, usize), px: int, py: int) -> bool {
    if n == (1isize, 0isize) {
        px <= x.0
    } else if n == (0isize, 1isize) {
        py <= x.1
    } else {
        py >= x.1
    }
}

/// A supported half-plane holds a node exactly when the node lies on the
/// inner side of the border, `n . (p - x) <= 0`; so it is closed on its
/// inner side: with every node it holds the node one step against the
/// normal.
pub proof fn lemma_half_plane_side(n: (isize, isize), x: (usize, usize), px: int, py: int)
    requires
        supported_normal(n),
    ensures
        half_plane_contains(n, x, px, py) <==> n.0 * (px - x.0) + n.1 * (py - x.1) <= 0,
        half_plane_contains(n, x, px, py) ==> half_plane_contains(n, x, px - n.0, py - n.1),
        half_plane_contains(n, x, x.0 as int, x.1 as int),
{
    if n == (1isize, 0isize) {
        assert(n.0 * (px - x.0) + n.1 * (py - x.1) == px - x.0) by (nonlinear_arith)
            requires
                n.0 == 1,
                n.1 == 0,
        ;
    } else if n == (0isize, 1isize) {
        assert(n.0 * (px - x.0) + n.1 * (py - x.1) == py - x.1) by (nonlinear_arith)
            requires
                n.0 == 0,
                n.1 == 1,
        ;
    } else {
        assert(n.0 * (px - x.0) + n.1 * (py - x.1) == x.1 - py) by (nonlinear_arith)
            requires
                n.0 == 0,
                n.1 == -1,
        ;
    }
}

impl Plane {
    /// The plane's normal.
    pub closed spec fn normal(&self) -> (isize, isize) {
        self.n
    }

    /// The plane's anchor point.
    pub closed spec fn anchor(&self) -> (usize, usize) {
        self.x
    }

    pub fn new(n: (isize, isize), x: (usize, usize)) -> (p: Plane)
        ensures
            p.normal() == n,
            p.anchor() == x,
    {
        Plane { n: n, x: x }
    }

    /// Whether the plane's normal is one for which it can tell which nodes
    /// it holds.
    pub fn supported(&self) -> (b: bool)
        ensures
            b == supported_normal(self.normal()),
    {
        (self.n.0 == 1 && self.n.1 == 0) || (self.n.0 == 0 && self.n.1 == 1) || (self.n.0 == 0
            && self.n.1 == -1)
    }

    /// Whether the node `(px, py)` lies in the half-plane.
    pub fn contains(&self, px: usize, py: usize) -> (b: bool)
        requires
            supported_normal(self.normal()),
        ensures
            b == half_plane_contains(self.normal(), self.anchor(), px as int, py as int),
            b == (self.normal().0 * (px - self.anchor().0) + self.normal().1 * (py - self.anchor().1)
                <= 0),
    {
        proof {
            lemma_half_plane_side(self.normal(), self.anchor(), px as int, py as int);
        }
        match (self.n.0, self.n.1) {
            (1, 0) => !(px > self.x.0),
            (0, 1) => !(py > self.x.1),
            _ => !(py < self.x.1),
        }
    }

    /// The nodes of an `nx` by `ny` grid that lie in the half-plane, as a
    /// mask indexed by `node_index`.
    pub fn generate(&self, nx: usize, ny: usize) -> (mask: Vec<bool>)
        requires
            supported_normal(self.normal()),
            nx * ny <= usize::MAX,
        ensures
            mask.len() == nx * ny,
            forall|i: int, j: int|
                0 <= i < nx && 0 <= j < ny ==> #[trigger] mask[node_index(nx as int, i, j)]
                    == half_plane_contains(self.normal(), self.anchor(), i, j),
            forall|i: int, j: int|
                0 <= i < nx && 0 <= j < ny ==> #[trigger] mask[node_index(nx as int, i, j)] == (
                self.normal().0 * (i - self.anchor().0) + self.normal().1 * (j - self.anchor().1)
                    <= 0),
    {
        let mut mask: Vec<bool> = Vec::new();
        let mut j: usize = 0;
        while j < ny
            invariant
                supported_normal(self.normal()),
                nx * ny <= usize::MAX,
                j <= ny,
                mask.len() == nx * j,
                forall|a: int, b: int|
                    0 <= a < nx && 0 <= b < j ==> #[trigger] mask[node_index(nx as int, a, b)]
                        == half_plane_contains(self.normal(), self.anchor(), a, b),
            decreases ny - j,
        {
            let mut i: usize = 0;
            while i < nx
                invariant
                    supported_normal(self.normal()),
                    nx * ny <= usize::MAX,
                    j < ny,
                    i <= nx,
                    mask.len() == nx * j + i,
                    forall|a: int, b: int|
                        0 <= a < nx && 0 <= b < j ==> #[trigger] mask[node_index(nx as int, a, b)]
                            == half_plane_contains(self.normal(), self.anchor(), a, b),
                    forall|a: int|
                        0 <= a < i ==> #[trigger] mask[node_index(nx as int, a, j as int)]
                            == half_plane_contains(self.normal(), self.anchor(), a, j as int),
                decreases nx - i,
            {
                proof {
                    lemma_index_bound(i as int, j as int, nx as int, ny as int);
                }
                let inside = self.contains(i, j);
                mask.push(inside);
                proof {
                    assert forall|a: int, b: int|
                        0 <= a < nx && 0 <= b < j implies #[trigger] mask[node_index(nx as int, a, b)]
                            == half_plane_contains(self.normal(), self.anchor(), a, b) by {
                        lemma_index_bound(a, b, nx as int, j as int);
                    }
                }
                i = i + 1;
            }
            proof {
                assert(nx * j + nx == nx * (j + 1)) by (nonlinear_arith);
            }
            j = j + 1;
        }
        proof {
            assert forall|i: int, j: int| 0 <= i < nx && 0 <= j < ny implies #[trigger] mask[node_index(
                nx as int,
                i,
                j,
            )] == (self.normal().0 * (i - self.anchor().0) + self.normal().1 * (j - self.anchor().1)
                <= 0) by {
                lemma_half_plane_side(self.normal(), self.anchor(), i, j);
            }
        }
        mask
    }
}

} // verus!
