//! Column-major layout of nodes and populations, shared by the grid and
//! the channel set-up, with the arithmetic facts about it.

use vstd::prelude::*;
use vstd::arithmetic::div_mod::lemma_fundamental_div_mod;
use vstd::arithmetic::div_mod::lemma_fundamental_div_mod_converse;
use vstd::arithmetic::div_mod::lemma_mod_pos_bound;
use vstd::arithmetic::div_mod::lemma_div_pos_is_pos;
use vstd::arithmetic::div_mod::lemma_multiply_divide_lt;

verus! {

/// Linear index of node `(i, j)` in a grid with `nx` nodes along x.
pub open spec fn node_index(nx: int, i: int, j: int) -> int {
    i + nx * j
}

/// Linear index of the population of direction `k` at linear node `node`
/// in a grid of `n_nodes` nodes.
pub open spec fn pop_index(n_nodes: int, node: int, k: int) -> int {
    node + n_nodes * k
}

/// The coordinate `a`, at most one step outside `0..n`, wrapped
/// periodically back into `0..n`.
pub open spec fn periodic(a: int, n: int) -> int {
    if a < 0 {
        a + n
    } else if a >= n {
        a - n
    } else {
        a
    }
}

/// Wrapping a coordinate at most one period outside `0..n` is taking it
/// modulo `n`: the result lies in `0..n` and differs from the coordinate
/// by a multiple of `n`.
pub proof fn lemma_periodic_is_mod(a: int, n: int)
    requires
        0 < n,
        -n <= a < 2 * n,
    ensures
        0 <= periodic(a, n) < n,
        periodic(a, n) == a % n,
        periodic(a, n) == a || periodic(a, n) == a + n || periodic(a, n) == a - n,
{
    if a < 0 {
        lemma_fundamental_div_mod_converse(a, n, -1, a + n);
    } else if a >= n {
        lemma_fundamental_div_mod_converse(a, n, 1, a - n);
    } else {
        lemma_fundamental_div_mod_converse(a, n, 0, a);
    }
}

/// An index built from `a < n` and `b < m` stays below `n * m`.
pub proof fn lemma_index_bound(a: int, b: int, n: int, m: int)
    requires
        0 <= a < n,
        0 <= b < m,
    ensures
        0 <= a + n * b < n * m,
{
    assert(0 <= n * b <= n * (m - 1)) by (nonlinear_arith)
        requires
            0 <= b <= m - 1,
            0 < n,
    ;
    assert(n * (m - 1) == n * m - n) by (nonlinear_arith);
}

/// An index `a + n * b` with `a < n` splits back into `a` and `b`.
pub proof fn lemma_index_split(a: int, b: int, n: int)
    requires
        0 <= a < n,
    ensures
        (a + n * b) % n == a,
        (a + n * b) / n == b,
{
    assert(a + n * b == b * n + a) by (nonlinear_arith);
    lemma_fundamental_div_mod_converse(a + n * b, n, b, a);
}

/// Every index below `n * m` is `a + n * b` for `a = p % n < n` and
/// `b = p / n < m`.
pub proof fn lemma_index_join(p: int, n: int, m: int)
    requires
        0 <= p < n * m,
        0 < n,
    ensures
        0 <= p % n < n,
        0 <= p / n < m,
        p == p % n + n * (p / n),
{
    lemma_fundamental_div_mod(p, n);
    lemma_mod_pos_bound(p, n);
    lemma_div_pos_is_pos(p, n);
    lemma_multiply_divide_lt(p, n, m);
}

} // verus!
