//! The iteration schedule of the solver: how many iterations run, and at
//! which of them output is written.

use vstd::prelude::*;
use vstd::arithmetic::div_mod::lemma_fundamental_div_mod_converse;
use vstd::arithmetic::div_mod::lemma_fundamental_div_mod;
use vstd::arithmetic::div_mod::lemma_mod_pos_bound;

verus! {

/// What one iteration of a run does: its number, and whether it writes
/// output.
#[derive(Clone, Copy, Debug, PartialEq, Eq, Structural)]
pub struct Iteration {
    pub iter: usize,
    pub write_output: bool,
}

/// Whether iteration `iter` writes output when output is written every
/// `n_out` iterations (never when `n_out` is zero).
pub open spec fn writes_output(iter: int, n_out: int) -> bool {
    n_out > 0 && iter % n_out == 0
}

/// The state of a run of `n_it` iterations, writing output every `n_out`
/// iterations.
pub struct RunSchedule {
    iter: usize,
    remaining: usize,
    n_out: usize,
}

impl View for RunSchedule {
    /// `(next iteration, iterations left, output period)`.
    type V = (int, int, int);

    closed spec fn view(&self) -> (int, int, int) {
        (self.iter as int, self.remaining as int, self.n_out as int)
    }
}

/// The state of a run of `n_it` iterations after its first `k` iterations.
pub open spec fn schedule_after(n_it: int, n_out: int, k: int) -> (int, int, int) {
    (k, n_it - k, n_out)
}

impl RunSchedule {
    /// The iteration counter and the count of iterations left never
    /// overflow together.
    #[verifier::type_invariant]
    spec fn counters_fit(&self) -> bool {
        self.iter + self.remaining <= usize::MAX
    }

    /// Starts a run of `n_it` iterations that writes output every `n_out`
    /// iterations.
    pub fn new(n_it: usize, n_out: usize) -> (s: Self)
        requires
            n_it > 0,
        ensures
            s@ == schedule_after(n_it as int, n_out as int, 0),
    {
        RunSchedule { iter: 0, remaining: n_it, n_out }
    }

    /// The next iteration to run, or `None` once the run is over.
    pub fn next(&mut self) -> (it: Option<Iteration>)
        ensures
            old(self)@.1 == 0 ==> it is None && final(self)@ == old(self)@,
            old(self)@.1 > 0 ==> it == Some(
                Iteration {
                    iter: old(self)@.0 as usize,
                    write_output: writes_output(old(self)@.0, old(self)@.2),
                },
            ) && final(self)@ == (old(self)@.0 + 1, old(self)@.1 - 1, old(self)@.2),
    {
        proof {
            use_type_invariant(&*self);
        }
        if self.remaining == 0 {
            return None;
        }
        let write_output = self.n_out > 0 && self.iter % self.n_out == 0;
        let it = Iteration { iter: self.iter, write_output };
        self.remaining = self.remaining - 1;
        self.iter = self.iter + 1;
        Some(it)
    }
}

/// The number of iterations among `0..k` that write output.
pub open spec fn outputs_before(k: int, n_out: int) -> int
    decreases k,
{
    if k <= 0 {
        0
    } else {
        outputs_before(k - 1, n_out) + if writes_output(k - 1, n_out) {
            1int
        } else {
            0int
        }
    }
}

/// A run of `n_it` iterations steps through iterations `0..n_it` in order
/// and then ends.
pub proof fn lemma_run_steps(n_it: int, n_out: int, k: int)
    requires
        0 <= k <= n_it,
    ensures
        schedule_after(n_it, n_out, k).1 == 0 <==> k == n_it,
        schedule_after(n_it, n_out, k).0 + schedule_after(n_it, n_out, k).1 == n_it,
        k < n_it ==> (schedule_after(n_it, n_out, k).0 + 1, schedule_after(n_it, n_out, k).1 - 1, n_out)
            == schedule_after(n_it, n_out, k + 1),
{
}

/// Writing output every `n_out` iterations, a run of `k` iterations writes
/// output `ceil(k / n_out)` times: at iterations `0, n_out, 2 n_out, ...`.
pub proof fn lemma_output_count(k: int, n_out: int)
    requires
        0 <= k,
        0 < n_out,
    ensures
        outputs_before(k, n_out) == (k + n_out - 1) / n_out,
    decreases k,
{
    if k == 0 {
        lemma_fundamental_div_mod_converse(n_out - 1, n_out, 0, n_out - 1);
    } else {
        lemma_output_count(k - 1, n_out);
        let j = k - 1;
        lemma_fundamental_div_mod(j, n_out);
        lemma_mod_pos_bound(j, n_out);
        let q = j / n_out;
        let r = j % n_out;
        assert((q + 1) * n_out == q * n_out + n_out && n_out * q == q * n_out) by (nonlinear_arith);
        if r == 0 {
            lemma_fundamental_div_mod_converse(j + n_out - 1, n_out, q, n_out - 1);
            lemma_fundamental_div_mod_converse(j + n_out, n_out, q + 1, 0);
        } else {
            lemma_fundamental_div_mod_converse(j + n_out - 1, n_out, q + 1, r - 1);
            lemma_fundamental_div_mod_converse(j + n_out, n_out, q + 1, r);
        }
    }
}

} // verus!
