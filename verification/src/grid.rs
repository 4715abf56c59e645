//! Rectangular grid of up to three dimensions.

use vstd::prelude::*;
use crate::streaming::stream_2d;
use crate::streaming::pull_source;
use crate::streaming::lemma_pull_push_inverse;
use crate::streaming::push_target;

verus! {

/// Rectangular grid of up to three dimensions: `x` by `y` nodes, and `z`
/// layers when `z` is above one.
#[derive(Clone, Copy, Debug)]
pub struct StructuredRectangular {
    pub dimensions: [u64; 4],
    pub x: usize,
    pub y: usize,
    pub z: usize,
}

/// The array shape of an `x` by `y` by `z` grid: a single layer when `z` is
/// zero or one.
pub open spec fn grid_dimensions(x: usize, y: usize, z: usize) -> Seq<u64> {
    if z <= 1 {
        seq![x as u64, y as u64, 1u64, 1u64]
    } else {
        seq![x as u64, y as u64, z as u64, 1u64]
    }
}

/// The number of nodes of an `x` by `y` by `z` grid.
pub open spec fn grid_size(x: int, y: int, z: int) -> int {
    if z <= 1 {
        x * y
    } else {
        x * y * z
    }
}

impl StructuredRectangular {
    pub fn new(x: usize, y: usize, z: usize) -> (g: Self)
        ensures
            g.x == x,
            g.y == y,
            g.z == z,
            g.dimensions@ == grid_dimensions(x, y, z),
            g.dimensions[0] == x,
            g.dimensions[1] == y,
            g.dimensions[2] == (if z <= 1 {
                1
            } else {
                z
            }),
            g.dimensions[3] == 1,
    {
        let dimensions: [u64; 4] = if z <= 1 {
            [x as u64, y as u64, 1, 1]
        } else {
            [x as u64, y as u64, z as u64, 1]
        };
        proof {
            assert(dimensions@ =~= grid_dimensions(x, y, z));
        }
        StructuredRectangular { x, y, z, dimensions }
    }

    /// The number of nodes.
    pub fn size(&self) -> (n: usize)
        requires
            grid_size(self.x as int, self.y as int, self.z as int) <= usize::MAX,
        ensures
            n == grid_size(self.x as int, self.y as int, self.z as int),
            self.z <= 1 ==> n == self.x * self.y,
            self.z >= 2 ==> n == self.x * self.y * self.z,
    {
        if self.z <= 1 {
            self.x * self.y
        } else {
            proof {
                assert(self.x * self.y <= self.x * self.y * self.z) by (nonlinear_arith)
                    requires
                        self.z > 1,
            }
            self.x * self.y * self.z
        }
    }

    /// The population indices `0..9 * x * y` of a single-layer grid, in
    /// layout order.
    pub fn main_index(&self) -> (v: Vec<u64>)
        requires
            self.z <= 1,
            self.x * self.y * 9 <= usize::MAX,
        ensures
            v.len() == self.x * self.y * 9,
            forall|p: int| 0 <= p < v.len() ==> #[trigger] v[p] == p,
    {
        let total = self.x * self.y * 9;
        let mut v: Vec<u64> = Vec::new();
        let mut p: usize = 0;
        while p < total
            invariant
                p <= total,
                total <= usize::MAX,
                v.len() == p,
                forall|q: int| 0 <= q < p ==> #[trigger] v[q] == q,
            decreases total - p,
        {
            v.push(p as u64);
            p = p + 1;
        }
        v
    }

    /// For every population index of a single-layer grid, the index that
    /// streaming reads it from.
    pub fn neighbors_index(&self) -> (v: Vec<u64>)
        requires
            self.z <= 1,
            0 < self.x,
            0 < self.y,
            self.x * self.y * 9 <= usize::MAX,
        ensures
            v.len() == self.x * self.y * 9,
            forall|p: int|
                0 <= p < v.len() ==> #[trigger] v[p] == pull_source(self.x as int, self.y as int, p),
    {
        let main = self.main_index();
        let v = stream_2d(&main, self.x, self.y);
        assert forall|p: int| 0 <= p < v.len() implies #[trigger] v[p] == pull_source(
            self.x as int,
            self.y as int,
            p,
        ) by {
            lemma_pull_push_inverse(self.x as int, self.y as int, p);
        }
        v
    }
}

/// A grid made by `new` has as many nodes as the product of its
/// dimensions: `x * y` nodes in a single layer when `z <= 1`, and
/// `x * y * z` nodes in `z` layers when `z >= 2`.
pub proof fn lemma_size_is_product_of_dimensions(x: usize, y: usize, z: usize)
    ensures
        grid_size(x as int, y as int, z as int) == (grid_dimensions(x, y, z)[0] as int) * (grid_dimensions(
            x,
            y,
            z,
        )[1] as int) * (grid_dimensions(x, y, z)[2] as int),
        z >= 2 ==> grid_dimensions(x, y, z)[2] == z && grid_size(x as int, y as int, z as int) == x * y
            * z,
        z <= 1 ==> grid_dimensions(x, y, z)[2] == 1 && grid_size(x as int, y as int, z as int) == x * y,
{
    let d = grid_dimensions(x, y, z);
    assert(d[0] == x && d[1] == y);
    if z <= 1 {
        assert(d[2] == 1);
        assert((x as int) * (y as int) * 1 == (x as int) * (y as int)) by (nonlinear_arith);
    } else {
        assert(d[2] == z);
    }
}

/// Streaming reads every population exactly once: the neighbour index of a
/// grid is a permutation of its population indices.
pub proof fn lemma_neighbors_index_permutation(g: StructuredRectangular, v: Seq<u64>)
    requires
        0 < g.x,
        0 < g.y,
        v.len() == g.x * g.y * 9,
        forall|p: int| 0 <= p < v.len() ==> #[trigger] v[p] == pull_source(g.x as int, g.y as int, p),
    ensures
        forall|p: int| 0 <= p < v.len() ==> 0 <= #[trigger] v[p] < v.len(),
        forall|p: int, q: int| 0 <= p < v.len() && 0 <= q < v.len() && #[trigger] v[p] == #[trigger] v[q] ==> p == q,
        forall|t: u64| t < v.len() ==> #[trigger] v.contains(t),
{
    let nx = g.x as int;
    let ny = g.y as int;
    assert forall|p: int| 0 <= p < v.len() implies 0 <= #[trigger] v[p] < v.len() by {
        lemma_pull_push_inverse(nx, ny, p);
    }
    assert forall|p: int, q: int| 0 <= p < v.len() && 0 <= q < v.len() && #[trigger] v[p] == #[trigger] v[q] implies p == q by {
        lemma_pull_push_inverse(nx, ny, p);
        lemma_pull_push_inverse(nx, ny, q);
    }
    assert forall|t: u64| t < v.len() implies #[trigger] v.contains(t) by {
        lemma_pull_push_inverse(nx, ny, t as int);
        let p = push_target(nx, ny, t as int);
        assert(v[p] == t);
    }
}

} // verus!
