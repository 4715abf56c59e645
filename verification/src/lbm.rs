//! Index logic of the channel-flow simulation: which nodes are solid, the
//! streaming and bounce-back indices, and the boundary values imposed on
//! the macroscopic fields.

use vstd::prelude::*;
use crate::layout::node_index;
use crate::layout::pop_index;
use crate::layout::lemma_index_bound;
use crate::layout::lemma_index_split;
use crate::layout::lemma_index_join;
use crate::distribution::opposite;
use crate::distribution::lemma_opposite;
use crate::distribution::lattice_ex;
use crate::distribution::lattice_ey;
use crate::grid::StructuredRectangular;
use crate::geometry::half_plane_contains;
use crate::layout::periodic;
use crate::streaming::pull_source;
use crate::streaming::grid_pop;
use crate::streaming::lemma_grid_pop;
use crate::streaming::lemma_pull_source_coords;

verus! {

/// Whether node `(i, j)` lies in the disc of radius `r` around `(ox, oy)`.
pub open spec fn in_obstacle(i: int, j: int, ox: int, oy: int, r: int) -> bool {
    (i - ox) * (i - ox) + (j - oy) * (j - oy) <= r * r
}

/// Whether node `(i, j)` of an `nx` by `ny` channel is solid: inside the
/// circular obstacle, or on the wall at `j == 0` or at `j == ny - 1`.
pub open spec fn channel_solid(ny: int, ox: int, oy: int, r: int, i: int, j: int) -> bool {
    in_obstacle(i, j, ox, oy, r) || j == 0 || j == ny - 1
}

/// `on` lists, in increasing order, exactly the positions of `bound` that
/// hold `true`.
pub open spec fn locates(bound: Seq<bool>, on: Seq<u64>) -> bool {
    &&& on.len() <= bound.len()
    &&& forall|m: int| 0 <= m < on.len() ==> #[trigger] on[m] < bound.len() && bound[on[m] as int]
    &&& forall|a: int, b: int| 0 <= a < b < on.len() ==> #[trigger] on[a] < #[trigger] on[b]
    &&& forall|n: u64| n < bound.len() && #[trigger] bound[n as int] ==> on.contains(n)
}

/// The obstacle is the closed disc of radius `r`: a node belongs to it
/// exactly when its squared Euclidean distance from the centre is at most
/// `r * r`. The centre and the four nodes at distance `r` along the axes
/// belong to it, and a larger radius never drops a node.
pub proof fn lemma_obstacle_is_disc(i: int, j: int, ox: int, oy: int, r: int, r2: int)
    requires
        0 <= r <= r2,
    ensures
        in_obstacle(i, j, ox, oy, r) <==> (i - ox) * (i - ox) + (j - oy) * (j - oy) <= r * r,
        in_obstacle(ox, oy, ox, oy, r),
        in_obstacle(ox + r, oy, ox, oy, r),
        in_obstacle(ox - r, oy, ox, oy, r),
        in_obstacle(ox, oy + r, ox, oy, r),
        in_obstacle(ox, oy - r, ox, oy, r),
        (i - ox) * (i - ox) + (j - oy) * (j - oy) > r * r ==> !in_obstacle(i, j, ox, oy, r),
        in_obstacle(i, j, ox, oy, r) ==> in_obstacle(i, j, ox, oy, r2),
{
    assert(r * r <= r2 * r2) by (nonlinear_arith)
        requires
            0 <= r <= r2,
    ;
    assert((ox + r - ox) * (ox + r - ox) == r * r) by (nonlinear_arith);
    assert((ox - r - ox) * (ox - r - ox) == r * r) by (nonlinear_arith);
    assert((oy + r - oy) * (oy + r - oy) == r * r) by (nonlinear_arith);
    assert((oy - r - oy) * (oy - r - oy) == r * r) by (nonlinear_arith);
    assert(0 <= r * r) by (nonlinear_arith);
}

/// Whether node `(i, j)` lies in the disc of radius `r` around `(ox, oy)`.
fn obstacle_contains(i: u64, j: u64, ox: u64, oy: u64, r: u64) -> (b: bool)
    ensures
        b == in_obstacle(i as int, j as int, ox as int, oy as int, r as int),
{
    let dx: u128 = if i >= ox {
        (i - ox) as u128
    } else {
        (ox - i) as u128
    };
    let dy: u128 = if j >= oy {
        (j - oy) as u128
    } else {
        (oy - j) as u128
    };
    let rr: u128 = r as u128;
    proof {
        assert(dx * dx == (i - ox) * (i - ox)) by (nonlinear_arith)
            requires
                dx == i - ox || dx == ox - i,
        ;
        assert(dy * dy == (j - oy) * (j - oy)) by (nonlinear_arith)
            requires
                dy == j - oy || dy == oy - j,
        ;
        assert(dx * dx <= 0xffff_ffff_ffff_ffffu128 * 0xffff_ffff_ffff_ffffu128) by (nonlinear_arith)
            requires
                dx <= 0xffff_ffff_ffff_ffffu128,
        ;
        assert(dy * dy <= 0xffff_ffff_ffff_ffffu128 * 0xffff_ffff_ffff_ffffu128) by (nonlinear_arith)
            requires
                dy <= 0xffff_ffff_ffff_ffffu128,
        ;
        assert(rr * rr <= 0xffff_ffff_ffff_ffffu128 * 0xffff_ffff_ffff_ffffu128) by (nonlinear_arith)
            requires
                rr <= 0xffff_ffff_ffff_ffffu128,
        ;
    }
    let r2 = rr * rr;
    let dx2 = dx * dx;
    if dx2 > r2 {
        false
    } else {
        dy * dy <= r2 - dx2
    }
}

/// The solid mask of an `nx` by `ny` channel with a circular obstacle of
/// radius `r` at `(ox, oy)`: `true` at the obstacle's nodes and at the
/// walls `j == 0` and `j == ny - 1`, indexed by `node_index`.
pub fn channel_bound(nx: u64, ny: u64, ox: u64, oy: u64, r: u64) -> (bound: Vec<bool>)
    requires
        nx * ny <= usize::MAX,
    ensures
        bound.len() == nx * ny,
        forall|i: int, j: int|
            0 <= i < nx && 0 <= j < ny ==> #[trigger] bound[node_index(nx as int, i, j)] == channel_solid(
                ny as int,
                ox as int,
                oy as int,
                r as int,
                i,
                j,
            ),
        forall|i: int, j: int|
            0 <= i < nx && 0 <= j < ny ==> #[trigger] bound[node_index(nx as int, i, j)] == ((i - ox) * (
            i - ox) + (j - oy) * (j - oy) <= r * r || j == 0 || j == ny - 1),
{
    let mut bound: Vec<bool> = Vec::new();
    let mut j: u64 = 0;
    while j < ny
        invariant
            nx * ny <= usize::MAX,
            j <= ny,
            bound.len() == nx * j,
            forall|a: int, b: int|
                0 <= a < nx && 0 <= b < j ==> #[trigger] bound[node_index(nx as int, a, b)] == channel_solid(
                    ny as int,
                    ox as int,
                    oy as int,
                    r as int,
                    a,
                    b,
                ),
        decreases ny - j,
    {
        let mut i: u64 = 0;
        while i < nx
            invariant
                nx * ny <= usize::MAX,
                j < ny,
                i <= nx,
                bound.len() == nx * j + i,
                forall|a: int, b: int|
                    0 <= a < nx && 0 <= b < j ==> #[trigger] bound[node_index(nx as int, a, b)] == channel_solid(
                        ny as int,
                        ox as int,
                        oy as int,
                        r as int,
                        a,
                        b,
                    ),
                forall|a: int|
                    0 <= a < i ==> #[trigger] bound[node_index(nx as int, a, j as int)] == channel_solid(
                        ny as int,
                        ox as int,
                        oy as int,
                        r as int,
                        a,
                        j as int,
                    ),
            decreases nx - i,
        {
            proof {
                lemma_index_bound(i as int, j as int, nx as int, ny as int);
            }
            let solid = obstacle_contains(i, j, ox, oy, r) || j == 0 || j == ny - 1;
            bound.push(solid);
            proof {
                assert forall|a: int, b: int|
                    0 <= a < nx && 0 <= b < j implies #[trigger] bound[node_index(nx as int, a, b)]
                        == channel_solid(ny as int, ox as int, oy as int, r as int, a, b) by {
                    lemma_index_bound(a, b, nx as int, j as int);
                }
                assert forall|a: int|
                    0 <= a < i + 1 implies #[trigger] bound[node_index(nx as int, a, j as int)]
                        == channel_solid(ny as int, ox as int, oy as int, r as int, a, j as int) by {
                }
            }
            i = i + 1;
        }
        proof {
            assert(nx * j + nx == nx * (j + 1)) by (nonlinear_arith);
        }
        j = j + 1;
    }
    proof {
        assert forall|i: int, j: int| 0 <= i < nx && 0 <= j < ny implies #[trigger] bound[node_index(
            nx as int,
            i,
            j,
        )] == ((i - ox) * (i - ox) + (j - oy) * (j - oy) <= r * r || j == 0 || j == ny - 1) by {
            lemma_obstacle_is_disc(i, j, ox as int, oy as int, r as int, r as int);
        }
    }
    bound
}

/// The positions of `true` in `bound`, in increasing order.
pub fn locate(bound: &Vec<bool>) -> (on: Vec<u64>)
    ensures
        locates(bound@, on@),
{
    let mut on: Vec<u64> = Vec::new();
    let mut n: usize = 0;
    while n < bound.len()
        invariant
            n <= bound.len(),
            on.len() <= n,
            forall|m: int| 0 <= m < on.len() ==> #[trigger] on[m] < n && bound[on[m] as int],
            forall|a: int, b: int| 0 <= a < b < on.len() ==> #[trigger] on[a] < #[trigger] on[b],
            forall|q: u64| q < n && #[trigger] bound[q as int] ==> on@.contains(q),
        decreases bound.len() - n,
    {
        let ghost before = on@;
        if bound[n] {
            on.push(n as u64);
        }
        proof {
            assert forall|q: u64| q < n + 1 && #[trigger] bound[q as int] implies on@.contains(q) by {
                if q < n {
                    let m = choose|m: int| 0 <= m < before.len() && before[m] == q;
                    assert(on@[m] == q);
                } else {
                    assert(on@[on.len() - 1] == q);
                }
            }
        }
        n = n + 1;
    }
    on
}

/// Position `p` of the bounce-back index lists stands for the solid node
/// `on[p % on.len()]` and the moving direction `p / on.len() + 1`.
pub open spec fn reflect_node(on: Seq<u64>, p: int) -> int {
    on[p % (on.len() as int)] as int
}

/// The moving direction that position `p` of the bounce-back index lists
/// stands for.
pub open spec fn reflect_dir(on: Seq<u64>, p: int) -> int {
    p / (on.len() as int) + 1
}

/// The populations that bounce back: direction `reflect_dir` at the solid
/// node `reflect_node`, in an array of `n` nodes.
pub open spec fn reflect_source(on: Seq<u64>, n: int, p: int) -> int {
    pop_index(n, reflect_node(on, p), reflect_dir(on, p))
}

/// Where a bounced-back population lands: the opposite direction at the
/// same node.
pub open spec fn reflect_target(on: Seq<u64>, n: int, p: int) -> int {
    pop_index(n, reflect_node(on, p), opposite(reflect_dir(on, p)))
}

/// The bounce-back index lists of the solid nodes `on` in an array of `n`
/// nodes: for each moving direction in turn, and each solid node in turn,
/// the population that bounces back and the population it lands on.
pub fn bounce_indices(on: &Vec<u64>, n: usize) -> (r: (Vec<u64>, Vec<u64>))
    requires
        n * 9 <= usize::MAX,
        on.len() <= n,
        forall|m: int| 0 <= m < on.len() ==> #[trigger] on[m] < n,
    ensures
        r.0.len() == 8 * on.len(),
        r.1.len() == 8 * on.len(),
        forall|p: int| 0 <= p < r.0.len() ==> #[trigger] r.0[p] == reflect_source(on@, n as int, p),
        forall|p: int| 0 <= p < r.1.len() ==> #[trigger] r.1[p] == reflect_target(on@, n as int, p),
{
    let opp: Vec<u64> = vec![3, 4, 1, 2, 7, 8, 5, 6];
    proof {
        assert forall|k: int| 0 <= k < 8 implies #[trigger] opp[k] == opposite(k + 1) by {
        }
    }
    let len = on.len();
    let mut to_reflect: Vec<u64> = Vec::new();
    let mut reflected: Vec<u64> = Vec::new();
    let mut k: usize = 0;
    while k < 8
        invariant
            n * 9 <= usize::MAX,
            len == on.len(),
            len <= n,
            forall|m: int| 0 <= m < on.len() ==> #[trigger] on[m] < n,
            opp.len() == 8,
            forall|d: int| 0 <= d < 8 ==> #[trigger] opp[d] == opposite(d + 1),
            k <= 8,
            to_reflect.len() == len * k,
            reflected.len() == len * k,
            forall|p: int| 0 <= p < to_reflect.len() ==> #[trigger] to_reflect[p] == reflect_source(on@, n as int, p),
            forall|p: int| 0 <= p < reflected.len() ==> #[trigger] reflected[p] == reflect_target(on@, n as int, p),
        decreases 8 - k,
    {
        let mut m: usize = 0;
        while m < len
            invariant
                n * 9 <= usize::MAX,
                len == on.len(),
                len <= n,
                forall|a: int| 0 <= a < on.len() ==> #[trigger] on[a] < n,
                opp.len() == 8,
                forall|d: int| 0 <= d < 8 ==> #[trigger] opp[d] == opposite(d + 1),
                k < 8,
                m <= len,
                to_reflect.len() == len * k + m,
                reflected.len() == len * k + m,
                forall|p: int| 0 <= p < to_reflect.len() ==> #[trigger] to_reflect[p] == reflect_source(on@, n as int, p),
                forall|p: int| 0 <= p < reflected.len() ==> #[trigger] reflected[p] == reflect_target(on@, n as int, p),
            decreases len - m,
        {
            proof {
                lemma_index_split(m as int, k as int, len as int);
                assert(len * k + m == m + len * k) by (nonlinear_arith);
                lemma_opposite(k + 1);
                assert(n * (k + 1) <= n * 8) by (nonlinear_arith)
                    requires
                        k < 8,
                ;
                assert(n * (opp[k as int] as int) <= n * 8) by (nonlinear_arith)
                    requires
                        opp[k as int] <= 8,
                ;
            }
            let node = on[m];
            to_reflect.push(node + (n as u64) * ((k as u64) + 1));
            reflected.push(node + (n as u64) * opp[k]);
            m = m + 1;
        }
        proof {
            assert(len * k + len == len * (k + 1)) by (nonlinear_arith);
        }
        k = k + 1;
    }
    proof {
        assert(len * 8 == 8 * len) by (nonlinear_arith);
    }
    (to_reflect, reflected)
}

/// The values of `src` at the positions `idx`, in order.
pub fn gather<T: Copy>(src: &Vec<T>, idx: &Vec<u64>) -> (out: Vec<T>)
    requires
        forall|p: int| 0 <= p < idx.len() ==> #[trigger] idx[p] < src.len(),
    ensures
        out.len() == idx.len(),
        forall|p: int| 0 <= p < idx.len() ==> #[trigger] out[p] == src[idx[p] as int],
{
    let mut out: Vec<T> = Vec::new();
    let mut p: usize = 0;
    while p < idx.len()
        invariant
            p <= idx.len(),
            out.len() == p,
            forall|q: int| 0 <= q < idx.len() ==> #[trigger] idx[q] < src.len(),
            forall|q: int| 0 <= q < p ==> #[trigger] out[q] == src[idx[q] as int],
        decreases idx.len() - p,
    {
        let at = idx[p] as usize;
        out.push(src[at]);
        p = p + 1;
    }
    out
}

/// No position occurs twice in `idx`.
pub open spec fn distinct(idx: Seq<u64>) -> bool {
    forall|p: int, q: int| 0 <= p < idx.len() && 0 <= q < idx.len() && #[trigger] idx[p] == #[trigger] idx[q] ==> p == q
}

/// Writes `vals[p]` at position `idx[p]` of `dst` for every `p`; the other
/// positions keep their values.
pub fn scatter<T: Copy>(dst: &mut Vec<T>, idx: &Vec<u64>, vals: &Vec<T>)
    requires
        idx.len() == vals.len(),
        distinct(idx@),
        forall|p: int| 0 <= p < idx.len() ==> #[trigger] idx[p] < old(dst).len(),
    ensures
        final(dst).len() == old(dst).len(),
        forall|p: int| 0 <= p < idx.len() ==> #[trigger] final(dst)[idx[p] as int] == vals[p],
        forall|t: u64| t < old(dst).len() && !idx@.contains(t) ==> #[trigger] final(dst)[t as int] == old(dst)[t as int],
{
    let ghost start = dst@;
    let mut p: usize = 0;
    while p < idx.len()
        invariant
            idx.len() == vals.len(),
            distinct(idx@),
            forall|q: int| 0 <= q < idx.len() ==> #[trigger] idx[q] < start.len(),
            p <= idx.len(),
            dst.len() == start.len(),
            forall|q: int| 0 <= q < p ==> #[trigger] dst[idx[q] as int] == vals[q],
            forall|t: u64| t < start.len() && !idx@.subrange(0, p as int).contains(t) ==> #[trigger] dst[t as int] == start[t as int],
        decreases idx.len() - p,
    {
        let at = idx[p] as usize;
        dst.set(at, vals[p]);
        proof {
            assert forall|t: u64| t < start.len() && !idx@.subrange(0, p + 1).contains(t) implies #[trigger] dst[t as int] == start[t as int] by {
                if idx@.subrange(0, p as int).contains(t) {
                    let q = choose|q: int| 0 <= q < p && idx@.subrange(0, p as int)[q] == t;
                    assert(idx@.subrange(0, p + 1)[q] == t);
                }
                if t == idx[p as int] {
                    assert(idx@.subrange(0, p + 1)[p as int] == t);
                }
            }
        }
        p = p + 1;
    }
    proof {
        assert(idx@.subrange(0, idx.len() as int) =~= idx@);
    }
}

/// Sets every position of `dst` listed in `idx` to `v`.
pub fn assign<T: Copy>(dst: &mut Vec<T>, idx: &Vec<u64>, v: T)
    requires
        forall|p: int| 0 <= p < idx.len() ==> #[trigger] idx[p] < old(dst).len(),
    ensures
        final(dst).len() == old(dst).len(),
        forall|t: u64| t < old(dst).len() ==> #[trigger] final(dst)[t as int] == if idx@.contains(t) {
            v
        } else {
            old(dst)[t as int]
        },
{
    let ghost start = dst@;
    let mut p: usize = 0;
    while p < idx.len()
        invariant
            forall|q: int| 0 <= q < idx.len() ==> #[trigger] idx[q] < start.len(),
            p <= idx.len(),
            dst.len() == start.len(),
            forall|t: u64| t < start.len() ==> #[trigger] dst[t as int] == if idx@.subrange(0, p as int).contains(t) {
                v
            } else {
                start[t as int]
            },
        decreases idx.len() - p,
    {
        let at = idx[p] as usize;
        dst.set(at, v);
        proof {
            assert forall|t: u64| t < start.len() implies #[trigger] dst[t as int] == if idx@.subrange(0, p + 1).contains(t) {
                v
            } else {
                start[t as int]
            } by {
                if idx@.subrange(0, p as int).contains(t) {
                    let q = choose|q: int| 0 <= q < p && idx@.subrange(0, p as int)[q] == t;
                    assert(idx@.subrange(0, p + 1)[q] == t);
                }
                if t == idx[p as int] {
                    assert(idx@.subrange(0, p + 1)[p as int] == t);
                }
                let s1 = idx@.subrange(0, p + 1);
                if s1.contains(t) && t != idx[p as int] {
                    let q = choose|q: int| 0 <= q < p + 1 && #[trigger] s1[q] == t;
                    assert(idx@.subrange(0, p as int)[q] == t);
                }
            }
        }
        p = p + 1;
    }
    proof {
        assert(idx@.subrange(0, idx.len() as int) =~= idx@);
    }
}

/// Sets row `i` (every node `(i, j)`) of an `nx` by `ny` field to `v`.
pub fn set_row<T: Copy>(dst: &mut Vec<T>, nx: usize, ny: usize, i: usize, v: T)
    requires
        old(dst).len() == nx * ny,
        i < nx,
    ensures
        final(dst).len() == old(dst).len(),
        forall|t: int| 0 <= t < old(dst).len() ==> #[trigger] final(dst)[t] == if t % (nx as int) == i {
            v
        } else {
            old(dst)[t]
        },
{
    let ghost start = dst@;
    let mut j: usize = 0;
    while j < ny
        invariant
            start.len() == nx * ny,
            dst.len() == start.len(),
            i < nx,
            j <= ny,
            forall|t: int| 0 <= t < start.len() ==> #[trigger] dst[t] == if t % (nx as int) == i && t / (nx as int) < j {
                v
            } else {
                start[t]
            },
        decreases ny - j,
    {
        proof {
            lemma_index_bound(i as int, j as int, nx as int, ny as int);
            lemma_index_split(i as int, j as int, nx as int);
        }
        dst.set(i + nx * j, v);
        proof {
            assert forall|t: int| 0 <= t < start.len() implies #[trigger] dst[t] == if t % (nx as int) == i && t / (nx as int) < j + 1 {
                v
            } else {
                start[t]
            } by {
                lemma_index_join(t, nx as int, ny as int);
            }
        }
        j = j + 1;
    }
    proof {
        assert forall|t: int| 0 <= t < start.len() implies #[trigger] dst[t] == if t % (nx as int) == i {
            v
        } else {
            start[t]
        } by {
            lemma_index_join(t, nx as int, ny as int);
        }
    }
}

/// A vector of `n` copies of `v`.
pub fn constant<T: Copy>(v: T, n: usize) -> (out: Vec<T>)
    ensures
        out.len() == n,
        forall|t: int| 0 <= t < n ==> #[trigger] out[t] == v,
{
    let mut out: Vec<T> = Vec::new();
    let mut p: usize = 0;
    while p < n
        invariant
            p <= n,
            out.len() == p,
            forall|t: int| 0 <= t < p ==> #[trigger] out[t] == v,
        decreases n - p,
    {
        out.push(v);
        p = p + 1;
    }
    out
}

/// A position lies in the located list exactly when it is marked.
proof fn lemma_locates_contains(bound: Seq<bool>, on: Seq<u64>, t: u64)
    requires
        locates(bound, on),
        t < bound.len(),
    ensures
        on.contains(t) == bound[t as int],
{
    if on.contains(t) {
        let m = choose|m: int| 0 <= m < on.len() && on[m] == t;
        assert(bound[on[m] as int]);
    }
}

/// The index lists of a channel of `nx` by `ny` nodes with a circular
/// obstacle: the solid mask, the solid nodes, the streaming index and the
/// bounce-back index lists.
pub struct ChannelLayout {
    pub nx: usize,
    pub ny: usize,
    pub total_nodes: usize,
    pub obstacle_x: u64,
    pub obstacle_y: u64,
    pub obstacle_r: u64,
    /// `true` at the solid nodes, indexed by node.
    pub bound: Vec<bool>,
    /// The solid nodes, in increasing order.
    pub on: Vec<u64>,
    /// For every population, the population that streaming reads it from.
    pub nb_index: Vec<u64>,
    /// The populations at solid nodes that bounce back.
    pub to_reflect: Vec<u64>,
    /// Where each population of `to_reflect` lands.
    pub reflected: Vec<u64>,
}

impl ChannelLayout {
    /// The lists agree with the channel's size and obstacle.
    pub open spec fn wf(&self) -> bool {
        &&& 0 < self.nx
        &&& 0 < self.ny
        &&& self.total_nodes == self.nx * self.ny
        &&& self.total_nodes * 9 <= usize::MAX
        &&& self.bound.len() == self.total_nodes
        &&& forall|i: int, j: int|
            0 <= i < self.nx && 0 <= j < self.ny ==> #[trigger] self.bound[node_index(self.nx as int, i, j)]
                == channel_solid(
                self.ny as int,
                self.obstacle_x as int,
                self.obstacle_y as int,
                self.obstacle_r as int,
                i,
                j,
            )
        &&& locates(self.bound@, self.on@)
        &&& self.nb_index.len() == self.total_nodes * 9
        &&& forall|p: int|
            0 <= p < self.nb_index.len() ==> #[trigger] self.nb_index[p] == pull_source(
                self.nx as int,
                self.ny as int,
                p,
            )
        &&& self.to_reflect.len() == 8 * self.on.len()
        &&& self.reflected.len() == 8 * self.on.len()
        &&& forall|p: int|
            0 <= p < self.to_reflect.len() ==> #[trigger] self.to_reflect[p] == reflect_source(
                self.on@,
                self.total_nodes as int,
                p,
            )
        &&& forall|p: int|
            0 <= p < self.reflected.len() ==> #[trigger] self.reflected[p] == reflect_target(
                self.on@,
                self.total_nodes as int,
                p,
            )
    }

    /// Whether population `t` is a moving population of a solid node.
    pub open spec fn solid_moving(&self, t: int) -> bool {
        let n = self.total_nodes as int;
        self.bound[t % n] && t / n >= 1
    }

    /// The population of the same node in the opposite direction.
    pub open spec fn bounce_partner(&self, t: int) -> int {
        let n = self.total_nodes as int;
        pop_index(n, t % n, opposite(t / n))
    }

    /// Builds the index lists of an `nx` by `ny` channel with a circular
    /// obstacle of radius `obstacle_r` at `(obstacle_x, obstacle_y)`.
    pub fn new(nx: u64, ny: u64, obstacle_x: u64, obstacle_y: u64, obstacle_r: u64) -> (c: Self)
        requires
            0 < nx,
            0 < ny,
            nx * ny * 9 <= usize::MAX,
        ensures
            c.wf(),
            c.nx == nx,
            c.ny == ny,
            c.obstacle_x == obstacle_x,
            c.obstacle_y == obstacle_y,
            c.obstacle_r == obstacle_r,
    {
        proof {
            assert(nx <= nx * ny && ny <= nx * ny && nx * ny <= nx * ny * 9) by (nonlinear_arith)
                requires
                    0 < nx,
                    0 < ny,
            ;
        }
        let total_nodes = (nx * ny) as usize;
        let bound = channel_bound(nx, ny, obstacle_x, obstacle_y, obstacle_r);
        let on = locate(&bound);
        let grid = StructuredRectangular::new(nx as usize, ny as usize, 0);
        let nb_index = grid.neighbors_index();
        let (to_reflect, reflected) = bounce_indices(&on, total_nodes);
        ChannelLayout {
            nx: nx as usize,
            ny: ny as usize,
            total_nodes,
            obstacle_x,
            obstacle_y,
            obstacle_r,
            bound,
            on,
            nb_index,
            to_reflect,
            reflected,
        }
    }

    /// Facts about position `p` of the bounce-back index lists.
    proof fn lemma_reflect(&self, p: int)
        requires
            self.wf(),
            0 <= p < self.reflected.len(),
        ensures
            0 <= p % (self.on.len() as int) < self.on.len(),
            0 <= reflect_node(self.on@, p) < self.total_nodes,
            self.bound[reflect_node(self.on@, p)],
            1 <= reflect_dir(self.on@, p) <= 8,
            1 <= opposite(reflect_dir(self.on@, p)) <= 8,
            0 <= self.to_reflect[p] < self.total_nodes * 9,
            0 <= self.reflected[p] < self.total_nodes * 9,
            (self.to_reflect[p] as int) % (self.total_nodes as int) == reflect_node(self.on@, p),
            (self.to_reflect[p] as int) / (self.total_nodes as int) == reflect_dir(self.on@, p),
            (self.reflected[p] as int) % (self.total_nodes as int) == reflect_node(self.on@, p),
            (self.reflected[p] as int) / (self.total_nodes as int) == opposite(reflect_dir(self.on@, p)),
    {
        let len = self.on.len() as int;
        let n = self.total_nodes as int;
        assert(0 < len) by (nonlinear_arith)
            requires
                0 <= p < 8 * len,
        ;
        lemma_index_join(p, len, 8);
        let m = p % len;
        let k = p / len;
        assert(self.on[m] < n && self.bound[self.on[m] as int]);
        lemma_opposite(k + 1);
        lemma_index_bound(self.on[m] as int, k + 1, n, 9);
        lemma_index_bound(self.on[m] as int, opposite(k + 1), n, 9);
        lemma_index_split(self.on[m] as int, k + 1, n);
        lemma_index_split(self.on[m] as int, opposite(k + 1), n);
    }

    /// Every moving population of a solid node lands on the bounce-back
    /// target list exactly once, at a position whose source is its
    /// opposite population.
    proof fn lemma_reflected_cover(&self, t: int) -> (p: int)
        requires
            self.wf(),
            0 <= t < self.total_nodes * 9,
            self.solid_moving(t),
        ensures
            0 <= p < self.reflected.len(),
            self.reflected[p] == t,
            self.to_reflect[p] == self.bounce_partner(t),
    {
        let n = self.total_nodes as int;
        let len = self.on.len() as int;
        lemma_index_join(t, n, 9);
        let node = t % n;
        let k = t / n;
        lemma_locates_contains(self.bound@, self.on@, node as u64);
        let m = choose|m: int| 0 <= m < len && self.on[m] == node as u64;
        lemma_opposite(k);
        let k0 = opposite(k) - 1;
        lemma_index_bound(m, k0, len, 8);
        lemma_index_split(m, k0, len);
        let p = m + len * k0;
        assert(p < 8 * len) by (nonlinear_arith)
            requires
                p < len * 8,
        ;
        p
    }

    /// No population is the target of two bounce-backs.
    proof fn lemma_reflected_distinct(&self)
        requires
            self.wf(),
        ensures
            distinct(self.reflected@),
    {
        let len = self.on.len() as int;
        assert forall|p: int, q: int|
            0 <= p < self.reflected.len() && 0 <= q < self.reflected.len() && #[trigger] self.reflected@[p]
                == #[trigger] self.reflected@[q] implies p == q by {
            self.lemma_reflect(p);
            self.lemma_reflect(q);
            let mp = p % len;
            let mq = q % len;
            if mp < mq {
                assert(self.on[mp] < self.on[mq]);
            } else if mq < mp {
                assert(self.on[mq] < self.on[mp]);
            }
            lemma_opposite(p / len + 1);
            lemma_opposite(q / len + 1);
            lemma_index_join(p, len, 8);
            lemma_index_join(q, len, 8);
        }
    }

    /// Streaming of the populations `f`: the new population of direction
    /// `k` at node `(i, j)` is the old one at `(i - ex_k, j - ey_k)`, with
    /// periodic wrap-around.
    pub fn stream<T: Copy>(&self, f: &Vec<T>) -> (out: Vec<T>)
        requires
            self.wf(),
            f.len() == self.total_nodes * 9,
        ensures
            out.len() == f.len(),
            forall|p: int|
                0 <= p < out.len() ==> out[p] == f[#[trigger] pull_source(
                    self.nx as int,
                    self.ny as int,
                    p,
                )],
            forall|i: int, j: int, k: int|
                0 <= i < self.nx && 0 <= j < self.ny && 0 <= k < 9 ==> out[grid_pop(
                    self.nx as int,
                    self.ny as int,
                    i,
                    j,
                    k,
                )] == f[grid_pop(
                    self.nx as int,
                    self.ny as int,
                    periodic(i - lattice_ex()[k], self.nx as int),
                    periodic(j - lattice_ey()[k], self.ny as int),
                    k,
                )],
    {
        proof {
            assert forall|p: int| 0 <= p < self.nb_index.len() implies #[trigger] self.nb_index[p] < f.len() by {
                crate::streaming::lemma_pull_push_inverse(self.nx as int, self.ny as int, p);
            }
        }
        let out = gather(f, &self.nb_index);
        proof {
            assert forall|p: int| 0 <= p < out.len() implies out[p] == f[#[trigger] pull_source(
                self.nx as int,
                self.ny as int,
                p,
            )] by {
                assert(self.nb_index[p] == pull_source(self.nx as int, self.ny as int, p));
            }
            assert forall|i: int, j: int, k: int|
                0 <= i < self.nx && 0 <= j < self.ny && 0 <= k < 9 implies out[grid_pop(
                    self.nx as int,
                    self.ny as int,
                    i,
                    j,
                    k,
                )] == f[grid_pop(
                    self.nx as int,
                    self.ny as int,
                    periodic(i - lattice_ex()[k], self.nx as int),
                    periodic(j - lattice_ey()[k], self.ny as int),
                    k,
                )] by {
                lemma_grid_pop(self.nx as int, self.ny as int, i, j, k);
                lemma_pull_source_coords(self.nx as int, self.ny as int, i, j, k);
                let p = grid_pop(self.nx as int, self.ny as int, i, j, k);
                assert(out[p] == f[pull_source(self.nx as int, self.ny as int, p)]);
            }
        }
        out
    }

    /// Bounce-back on the solid nodes: every moving population of a solid
    /// node in `f` is replaced by the streamed population of the same node
    /// in the opposite direction; all other populations of `f` are kept.
    pub fn bounce_back<T: Copy>(&self, f: &mut Vec<T>, streamed: &Vec<T>)
        requires
            self.wf(),
            old(f).len() == self.total_nodes * 9,
            streamed.len() == self.total_nodes * 9,
        ensures
            final(f).len() == old(f).len(),
            forall|t: int|
                0 <= t < old(f).len() ==> #[trigger] final(f)[t] == if self.solid_moving(t) {
                    streamed[self.bounce_partner(t)]
                } else {
                    old(f)[t]
                },
    {
        proof {
            assert forall|p: int| 0 <= p < self.to_reflect.len() implies #[trigger] self.to_reflect[p] < streamed.len() by {
                self.lemma_reflect(p);
            }
            assert forall|p: int| 0 <= p < self.reflected.len() implies #[trigger] self.reflected[p] < f.len() by {
                self.lemma_reflect(p);
            }
            self.lemma_reflected_distinct();
        }
        let ghost before = f@;
        let bounced = gather(streamed, &self.to_reflect);
        scatter(f, &self.reflected, &bounced);
        proof {
            let n = self.total_nodes as int;
            assert forall|t: int| 0 <= t < before.len() implies #[trigger] f[t] == if self.solid_moving(t) {
                streamed[self.bounce_partner(t)]
            } else {
                before[t]
            } by {
                if self.solid_moving(t) {
                    let p = self.lemma_reflected_cover(t);
                    assert(f[self.reflected[p] as int] == bounced[p]);
                } else {
                    if self.reflected@.contains(t as u64) {
                        let p = choose|p: int| 0 <= p < self.reflected.len() && self.reflected@[p] == t as u64;
                        self.lemma_reflect(p);
                    }
                    assert(f[(t as u64) as int] == before[(t as u64) as int]);
                }
            }
        }
    }

    /// Imposes the boundary values on the macroscopic fields of one step:
    /// the inflow density on the inlet and outlet rows, the inflow velocity
    /// on the inlet row, and zero density and velocity on solid nodes
    /// (except that the inlet and outlet rows keep the inflow density).
    pub fn impose_boundaries<T: Copy>(
        &self,
        density: &mut Vec<T>,
        ux: &mut Vec<T>,
        uy: &mut Vec<T>,
        inflow_density: T,
        inflow_ux: T,
        zero: T,
    )
        requires
            self.wf(),
            old(density).len() == self.total_nodes,
            old(ux).len() == self.total_nodes,
            old(uy).len() == self.total_nodes,
        ensures
            final(density).len() == self.total_nodes,
            final(ux).len() == self.total_nodes,
            final(uy).len() == self.total_nodes,
            forall|t: int|
                0 <= t < self.total_nodes ==> #[trigger] final(density)[t] == if t % (self.nx as int) == 0
                    || t % (self.nx as int) == self.nx - 1 {
                    inflow_density
                } else if self.bound[t] {
                    zero
                } else {
                    old(density)[t]
                },
            forall|t: int|
                0 <= t < self.total_nodes ==> #[trigger] final(ux)[t] == if self.bound[t] {
                    zero
                } else if t % (self.nx as int) == 0 {
                    inflow_ux
                } else {
                    old(ux)[t]
                },
            forall|t: int|
                0 <= t < self.total_nodes ==> #[trigger] final(uy)[t] == if self.bound[t] {
                    zero
                } else {
                    old(uy)[t]
                },
    {
        let ghost d0 = density@;
        let ghost u0 = ux@;
        let ghost v0 = uy@;
        assign(density, &self.on, zero);
        let ghost d1 = density@;
        set_row(ux, self.nx, self.ny, 0, inflow_ux);
        let ghost u1 = ux@;
        set_row(density, self.nx, self.ny, 0, inflow_density);
        let ghost d2 = density@;
        set_row(density, self.nx, self.ny, self.nx - 1, inflow_density);
        assign(ux, &self.on, zero);
        assign(uy, &self.on, zero);
        proof {
            assert forall|t: int| 0 <= t < self.total_nodes implies #[trigger] density[t] == if t % (self.nx as int) == 0
                || t % (self.nx as int) == self.nx - 1 {
                inflow_density
            } else if self.bound[t] {
                zero
            } else {
                d0[t]
            } by {
                lemma_locates_contains(self.bound@, self.on@, t as u64);
                assert(d1[(t as u64) as int] == d1[t]);
            }
            assert forall|t: int| 0 <= t < self.total_nodes implies #[trigger] ux[t] == if self.bound[t] {
                zero
            } else if t % (self.nx as int) == 0 {
                inflow_ux
            } else {
                u0[t]
            } by {
                lemma_locates_contains(self.bound@, self.on@, t as u64);
                assert(ux[(t as u64) as int] == ux[t]);
            }
            assert forall|t: int| 0 <= t < self.total_nodes implies #[trigger] uy[t] == if self.bound[t] {
                zero
            } else {
                v0[t]
            } by {
                lemma_locates_contains(self.bound@, self.on@, t as u64);
                assert(uy[(t as u64) as int] == uy[t]);
            }
        }
    }

    /// The macroscopic fields the simulation starts from: density
    /// `initial_density` and velocity `(initial_ux, 0)` at the fluid nodes,
    /// and zero at the solid nodes.
    pub fn initial_fields<T: Copy>(&self, initial_density: T, initial_ux: T, zero: T) -> (r: (
        Vec<T>,
        Vec<T>,
        Vec<T>,
    ))
        requires
            self.wf(),
        ensures
            r.0.len() == self.total_nodes,
            r.1.len() == self.total_nodes,
            r.2.len() == self.total_nodes,
            forall|t: int|
                0 <= t < self.total_nodes ==> #[trigger] r.0[t] == if self.bound[t] {
                    zero
                } else {
                    initial_density
                },
            forall|t: int|
                0 <= t < self.total_nodes ==> #[trigger] r.1[t] == if self.bound[t] {
                    zero
                } else {
                    initial_ux
                },
            forall|t: int| 0 <= t < self.total_nodes ==> #[trigger] r.2[t] == zero,
    {
        let mut density = constant(initial_density, self.total_nodes);
        let mut ux = constant(initial_ux, self.total_nodes);
        let mut uy = constant(zero, self.total_nodes);
        assign(&mut ux, &self.on, zero);
        assign(&mut uy, &self.on, zero);
        assign(&mut density, &self.on, zero);
        proof {
            assert forall|t: int| 0 <= t < self.total_nodes implies #[trigger] density[t] == if self.bound[t] {
                zero
            } else {
                initial_density
            } && ux[t] == if self.bound[t] {
                zero
            } else {
                initial_ux
            } && uy[t] == zero by {
                lemma_locates_contains(self.bound@, self.on@, t as u64);
                assert(density[(t as u64) as int] == density[t]);
            }
        }
        (density, ux, uy)
    }
}

/// The channel's solid nodes are the obstacle's nodes together with the
/// two wall planes of the channel: the bottom plane with normal `(0, 1)`
/// through `(0, 0)` and the top plane with normal `(0, -1)` through
/// `(0, ny - 1)`.
pub proof fn lemma_channel_walls_are_planes(ny: usize, ox: int, oy: int, r: int, i: int, j: int)
    requires
        0 < ny,
        0 <= i,
        0 <= j < ny,
    ensures
        channel_solid(ny as int, ox, oy, r, i, j) == (in_obstacle(i, j, ox, oy, r)
            || half_plane_contains((0isize, 1isize), (0usize, 0usize), i, j)
            || half_plane_contains((0isize, -1isize), (0usize, (ny - 1) as usize), i, j)),
{
}

impl ChannelLayout {
    /// A node of the channel is solid exactly when its squared distance from
    /// the obstacle's centre is at most the squared radius, or it lies on
    /// one of the walls `j == 0` and `j == ny - 1`; in particular the node
    /// at distance `r` to the right of the centre is solid whenever it lies
    /// in the channel.
    pub proof fn lemma_solid_nodes(&self, i: int, j: int)
        requires
            self.wf(),
            0 <= i < self.nx,
            0 <= j < self.ny,
        ensures
            self.bound[node_index(self.nx as int, i, j)] == ((i - self.obstacle_x) * (i
                - self.obstacle_x) + (j - self.obstacle_y) * (j - self.obstacle_y) <= self.obstacle_r
                * self.obstacle_r || j == 0 || j == self.ny - 1),
            (self.obstacle_x + self.obstacle_r < self.nx && self.obstacle_y < self.ny) ==> self.bound[node_index(
                self.nx as int,
                self.obstacle_x + self.obstacle_r,
                self.obstacle_y as int,
            )],
    {
        let ox = self.obstacle_x as int;
        let oy = self.obstacle_y as int;
        let r = self.obstacle_r as int;
        lemma_obstacle_is_disc(i, j, ox, oy, r, r);
        if ox + r < self.nx && oy < self.ny {
            lemma_obstacle_is_disc(ox + r, oy, ox, oy, r, r);
            assert(self.bound[node_index(self.nx as int, ox + r, oy)] == channel_solid(
                self.ny as int,
                ox,
                oy,
                r,
                ox + r,
                oy,
            ));
        }
    }

    /// Bounce-back pairs each moving population of a solid node with the
    /// population of the same node in the opposite direction, which is
    /// again a moving population of a solid node and is paired back with
    /// the first.
    pub proof fn lemma_bounce_partner_involution(&self, t: int)
        requires
            self.wf(),
            0 <= t < self.total_nodes * 9,
            self.solid_moving(t),
        ensures
            0 <= self.bounce_partner(t) < self.total_nodes * 9,
            self.bounce_partner(t) != t,
            self.solid_moving(self.bounce_partner(t)),
            self.bounce_partner(self.bounce_partner(t)) == t,
    {
        let n = self.total_nodes as int;
        lemma_index_join(t, n, 9);
        let node = t % n;
        let k = t / n;
        lemma_opposite(k);
        lemma_index_bound(node, opposite(k), n, 9);
        lemma_index_split(node, opposite(k), n);
    }
}

} // verus!
