//! Periodic pull streaming on a two-dimensional D2Q9 grid.
//!
//! A population array holds `9 * nx * ny` values: the population of
//! direction `k` at node `(i, j)` sits at `i + nx * j + nx * ny * k`.
//! Streaming moves every population one lattice step along its direction,
//! wrapping around the grid's edges: the new value at `(i, j)` in
//! direction `k` is the old value at `(i - ex_k, j - ey_k)`.

use vstd::prelude::*;
use crate::distribution::D2Q9;
use crate::distribution::lattice_ex;
use crate::distribution::lattice_ey;
use crate::layout::node_index;
use crate::layout::pop_index;
use crate::layout::periodic;
use crate::layout::lemma_index_bound;
use crate::layout::lemma_index_split;
use crate::layout::lemma_index_join;
use crate::traits::Distribution;

verus! {

/// The node that the population of direction `k` at node `(i, j)` is
/// pulled from.
pub open spec fn pull_node(nx: int, ny: int, i: int, j: int, k: int) -> int {
    node_index(nx, periodic(i - lattice_ex()[k], nx), periodic(j - lattice_ey()[k], ny))
}

/// The node that the population of direction `k` at node `(i, j)` moves
/// to.
pub open spec fn push_node(nx: int, ny: int, i: int, j: int, k: int) -> int {
    node_index(nx, periodic(i + lattice_ex()[k], nx), periodic(j + lattice_ey()[k], ny))
}

/// The population index that position `p` of a streamed array is read
/// from.
pub open spec fn pull_source(nx: int, ny: int, p: int) -> int {
    let n = nx * ny;
    let node = p % n;
    let k = p / n;
    pop_index(n, pull_node(nx, ny, node % nx, node / nx, k), k)
}

/// The population index that position `p` of an array is streamed to.
pub open spec fn push_target(nx: int, ny: int, p: int) -> int {
    let n = nx * ny;
    let node = p % n;
    let k = p / n;
    pop_index(n, push_node(nx, ny, node % nx, node / nx, k), k)
}

/// The population index of direction `k` at node `(i, j)`.
pub open spec fn grid_pop(nx: int, ny: int, i: int, j: int, k: int) -> int {
    pop_index(nx * ny, node_index(nx, i, j), k)
}

/// Wrapping one step back and one step forth returns to the start.
proof fn lemma_periodic_inverse(i: int, e: int, n: int)
    requires
        0 <= i < n,
        -1 <= e <= 1,
    ensures
        0 <= periodic(i - e, n) < n,
        0 <= periodic(i + e, n) < n,
        periodic(periodic(i - e, n) + e, n) == i,
        periodic(periodic(i + e, n) - e, n) == i,
{
}

/// The population index of `(i, j, k)` lies in the array and decodes back
/// to `(i, j, k)`.
pub proof fn lemma_grid_pop(nx: int, ny: int, i: int, j: int, k: int)
    requires
        0 <= i < nx,
        0 <= j < ny,
        0 <= k < 9,
    ensures
        0 <= node_index(nx, i, j) < nx * ny,
        0 <= grid_pop(nx, ny, i, j, k) < nx * ny * 9,
        grid_pop(nx, ny, i, j, k) % (nx * ny) == node_index(nx, i, j),
        grid_pop(nx, ny, i, j, k) / (nx * ny) == k,
        node_index(nx, i, j) % nx == i,
        node_index(nx, i, j) / nx == j,
{
    lemma_index_bound(i, j, nx, ny);
    lemma_index_bound(i + nx * j, k, nx * ny, 9);
    lemma_index_split(i + nx * j, k, nx * ny);
    lemma_index_split(i, j, nx);
}

/// Every population index decodes into a node `(i, j)` and a direction
/// `k` whose population index it is.
pub proof fn lemma_grid_pop_decode(nx: int, ny: int, p: int)
    requires
        0 < nx,
        0 < ny,
        0 <= p < nx * ny * 9,
    ensures
        0 <= (p % (nx * ny)) % nx < nx,
        0 <= (p % (nx * ny)) / nx < ny,
        0 <= p / (nx * ny) < 9,
        p == grid_pop(nx, ny, (p % (nx * ny)) % nx, (p % (nx * ny)) / nx, p / (nx * ny)),
{
    assert(0 < nx * ny) by (nonlinear_arith)
        requires
            0 < nx,
            0 < ny,
    ;
    lemma_index_join(p, nx * ny, 9);
    lemma_index_join(p % (nx * ny), nx, ny);
}

/// Pulling reads the population index of the pulled node, for the same
/// direction.
pub proof fn lemma_pull_source_coords(nx: int, ny: int, i: int, j: int, k: int)
    requires
        0 <= i < nx,
        0 <= j < ny,
        0 <= k < 9,
    ensures
        pull_source(nx, ny, grid_pop(nx, ny, i, j, k)) == grid_pop(
            nx,
            ny,
            periodic(i - lattice_ex()[k], nx),
            periodic(j - lattice_ey()[k], ny),
            k,
        ),
        push_target(nx, ny, grid_pop(nx, ny, i, j, k)) == grid_pop(
            nx,
            ny,
            periodic(i + lattice_ex()[k], nx),
            periodic(j + lattice_ey()[k], ny),
            k,
        ),
{
    lemma_grid_pop(nx, ny, i, j, k);
}

/// Pulling and pushing are inverse to each other on the population
/// indices of a grid, so both are permutations of `0..9 * nx * ny`.
pub proof fn lemma_pull_push_inverse(nx: int, ny: int, p: int)
    requires
        0 < nx,
        0 < ny,
        0 <= p < nx * ny * 9,
    ensures
        0 <= pull_source(nx, ny, p) < nx * ny * 9,
        0 <= push_target(nx, ny, p) < nx * ny * 9,
        push_target(nx, ny, pull_source(nx, ny, p)) == p,
        pull_source(nx, ny, push_target(nx, ny, p)) == p,
{
    lemma_grid_pop_decode(nx, ny, p);
    let i = (p % (nx * ny)) % nx;
    let j = (p % (nx * ny)) / nx;
    let k = p / (nx * ny);
    let ex = lattice_ex()[k];
    let ey = lattice_ey()[k];
    lemma_periodic_inverse(i, ex, nx);
    lemma_periodic_inverse(j, ey, ny);
    lemma_pull_source_coords(nx, ny, i, j, k);
    let pi = periodic(i - ex, nx);
    let pj = periodic(j - ey, ny);
    lemma_grid_pop(nx, ny, pi, pj, k);
    lemma_pull_source_coords(nx, ny, pi, pj, k);
    let qi = periodic(i + ex, nx);
    let qj = periodic(j + ey, ny);
    lemma_grid_pop(nx, ny, qi, qj, k);
    lemma_pull_source_coords(nx, ny, qi, qj, k);
}

/// The source of a pull along direction offset `e` from coordinate `i` on
/// an axis of `n` nodes.
fn wrap_back(i: usize, e: i64, n: usize) -> (r: usize)
    requires
        i < n,
        -1 <= e <= 1,
    ensures
        r == periodic(i - e, n as int),
{
    if e == 1 {
        if i == 0 {
            n - 1
        } else {
            i - 1
        }
    } else if e == -1 {
        if i + 1 == n {
            0
        } else {
            i + 1
        }
    } else {
        i
    }
}

/// Streams the populations `f` of an `nx` by `ny` grid one step along their
/// directions, with periodic wrap-around at the edges (pull scheme).
pub fn stream_2d<T: Copy>(f: &Vec<T>, nx: usize, ny: usize) -> (out: Vec<T>)
    requires
        0 < nx,
        0 < ny,
        nx * ny * 9 <= usize::MAX,
        f.len() == nx * ny * 9,
    ensures
        out.len() == f.len(),
        forall|p: int| 0 <= p < out.len() ==> out[p] == f[#[trigger] pull_source(nx as int, ny as int, p)],
        forall|i: int, j: int, k: int|
            0 <= i < nx && 0 <= j < ny && 0 <= k < 9 ==> out[grid_pop(nx as int, ny as int, i, j, k)]
                == f[grid_pop(
                nx as int,
                ny as int,
                periodic(i - lattice_ex()[k], nx as int),
                periodic(j - lattice_ey()[k], ny as int),
                k,
            )],
{
    let n = nx * ny;
    let exs = D2Q9::ex();
    let eys = D2Q9::ey();
    let mut out: Vec<T> = Vec::new();
    let mut k: usize = 0;
    while k < 9
        invariant
            0 < nx,
            0 < ny,
            n == nx * ny,
            n * 9 <= usize::MAX,
            f.len() == n * 9,
            k <= 9,
            out.len() == n * k,
            exs.len() == 9,
            eys.len() == 9,
            forall|m: int| 0 <= m < 9 ==> #[trigger] exs[m] == lattice_ex()[m],
            forall|m: int| 0 <= m < 9 ==> #[trigger] eys[m] == lattice_ey()[m],
            forall|q: int| 0 <= q < out.len() ==> out[q] == f[#[trigger] pull_source(nx as int, ny as int, q)],
        decreases 9 - k,
    {
        let ex = exs[k];
        let ey = eys[k];
        let mut j: usize = 0;
        while j < ny
            invariant
                0 < nx,
                0 < ny,
                n == nx * ny,
                n * 9 <= usize::MAX,
                f.len() == n * 9,
                k < 9,
                j <= ny,
                out.len() == n * k + nx * j,
                ex == lattice_ex()[k as int],
                ey == lattice_ey()[k as int],
                forall|q: int| 0 <= q < out.len() ==> out[q] == f[#[trigger] pull_source(nx as int, ny as int, q)],
            decreases ny - j,
        {
            let sj = wrap_back(j, ey, ny);
            let mut i: usize = 0;
            while i < nx
                invariant
                    0 < nx,
                    0 < ny,
                    n == nx * ny,
                    n * 9 <= usize::MAX,
                    f.len() == n * 9,
                    k < 9,
                    j < ny,
                    i <= nx,
                    out.len() == n * k + nx * j + i,
                    ex == lattice_ex()[k as int],
                    ey == lattice_ey()[k as int],
                    sj == periodic(j - ey, ny as int),
                    forall|q: int| 0 <= q < out.len() ==> out[q] == f[#[trigger] pull_source(nx as int, ny as int, q)],
                decreases nx - i,
            {
                let si = wrap_back(i, ex, nx);
                proof {
                    lemma_grid_pop(nx as int, ny as int, i as int, j as int, k as int);
                    lemma_grid_pop(nx as int, ny as int, si as int, sj as int, k as int);
                    lemma_pull_source_coords(nx as int, ny as int, i as int, j as int, k as int);
                    assert(n * k + nx * j + i == grid_pop(nx as int, ny as int, i as int, j as int, k as int)) by (nonlinear_arith)
                        requires n == nx * ny;
                }
                let src = si + nx * sj + n * k;
                out.push(f[src]);
                i = i + 1;
            }
            assert(n * k + nx * j + nx == n * k + nx * (j + 1)) by (nonlinear_arith);
            j = j + 1;
        }
        assert(n * k + nx * ny == n * (k + 1)) by (nonlinear_arith)
            requires n == nx * ny;
        k = k + 1;
    }
    assert forall|i: int, j: int, k: int|
        0 <= i < nx && 0 <= j < ny && 0 <= k < 9 implies out[grid_pop(nx as int, ny as int, i, j, k)]
            == f[grid_pop(
            nx as int,
            ny as int,
            periodic(i - lattice_ex()[k], nx as int),
            periodic(j - lattice_ey()[k], ny as int),
            k,
        )] by {
        lemma_grid_pop(nx as int, ny as int, i, j, k);
        lemma_pull_source_coords(nx as int, ny as int, i, j, k);
    }
    out
}

} // verus!
