//! The bisection that narrows a disagreement between two traces to one
//! operator, and the off-chain strategies of the two parties.

use vstd::prelude::*;
use crate::bytes::bytes_equal;
use crate::merkle::{tree_depth, pow2, lemma_pow2_depth};

verus! {

/// What a response to a proposal at the midpoint of `[low, high]` leads to.
#[derive(Clone, Copy, Debug, PartialEq, Eq, Structural)]
pub enum Outcome {
    /// The disagreement lies in the new interval.
    Narrowed { low: usize, high: usize },
    /// Inputs agree and outputs differ at the midpoint: prove that operator.
    Found,
    /// The interval is used up: the challenger's claimed disagreement is not there.
    Exhausted,
}

/// The midpoint of `[low, high]`.
pub open spec fn mid_spec(low: usize, high: usize) -> usize {
    ((low + high) / 2) as usize
}

/// The bisection rule. Matching input and output move right of the
/// midpoint; matching input and differing output locate the operator; a
/// differing input (whatever the output) moves left of the midpoint.
pub open spec fn outcome_spec(low: usize, high: usize, input_match: bool, output_match: bool) -> Outcome {
    let mid = mid_spec(low, high);
    if input_match && output_match {
        if mid >= high {
            Outcome::Exhausted
        } else {
            Outcome::Narrowed { low: (mid + 1) as usize, high }
        }
    } else if input_match {
        Outcome::Found
    } else if mid <= low {
        Outcome::Exhausted
    } else {
        Outcome::Narrowed { low, high: (mid - 1) as usize }
    }
}

/// The midpoint of `[low, high]`, computed without overflow.
pub fn midpoint(low: usize, high: usize) -> (r: usize)
    ensures
        r == mid_spec(low, high),
        low <= high ==> low <= r <= high,
{
    if low <= high {
        low + (high - low) / 2
    } else {
        high + (low - high) / 2
    }
}

/// Applies the bisection rule.
pub fn next_outcome(low: usize, high: usize, input_match: bool, output_match: bool) -> (r: Outcome)
    requires
        low <= high,
    ensures
        r == outcome_spec(low, high, input_match, output_match),
        r matches Outcome::Narrowed { low: l, high: h } ==> low <= l <= h <= high && h - l < high - low,
{
    let mid = midpoint(low, high);
    if input_match && output_match {
        if mid >= high {
            Outcome::Exhausted
        } else {
            Outcome::Narrowed { low: mid + 1, high }
        }
    } else if input_match {
        Outcome::Found
    } else if mid <= low {
        Outcome::Exhausted
    } else {
        Outcome::Narrowed { low, high: mid - 1 }
    }
}

/// What the challenger does next.
#[derive(Clone, Copy, Debug, PartialEq, Eq, Structural)]
pub enum BisectionStep {
    /// Propose the own trace entry at this operator.
    Propose(usize),
    /// Produce the single-operator proof for this operator.
    Prove(usize),
    /// Give up: the own trace was wrong.
    Concede,
}

/// The challenger's bisection state over operator indices.
#[derive(Clone, Copy, Debug)]
pub struct Bisection {
    pub low: usize,
    pub high: usize,
    pub finished: bool,
}

impl Bisection {
    pub open spec fn wf(&self) -> bool {
        self.low <= self.high
    }

    /// The interval `[0, n - 1]` over a model of `n` operators.
    pub fn new(n: usize) -> (r: Bisection)
        requires
            n >= 1,
        ensures
            r.wf(),
            r.low == 0,
            r.high == n - 1,
            !r.finished,
    {
        Bisection { low: 0, high: n - 1, finished: false }
    }

    /// The operator to propose next.
    pub fn mid(&self) -> (r: usize)
        requires
            self.wf(),
        ensures
            r == mid_spec(self.low, self.high),
            self.low <= r <= self.high,
    {
        midpoint(self.low, self.high)
    }

    /// The trace entry to propose: the own input and output hashes at the midpoint.
    pub fn proposal(&self, trace: &Vec<(Vec<u8>, Vec<u8>)>) -> (r: (Vec<u8>, Vec<u8>))
        requires
            self.wf(),
            self.high < trace@.len(),
        ensures
            r.0@ == trace@[mid_spec(self.low, self.high) as int].0@,
            r.1@ == trace@[mid_spec(self.low, self.high) as int].1@,
    {
        let m = self.mid();
        let a = trace[m].0.clone();
        let b = trace[m].1.clone();
        assert(a@ =~= trace@[m as int].0@);
        assert(b@ =~= trace@[m as int].1@);
        (a, b)
    }

    /// Takes the responder's answer to the last proposal and says what to do.
    pub fn on_response(&mut self, input_match: bool, output_match: bool) -> (r: BisectionStep)
        requires
            old(self).wf(),
            !old(self).finished,
        ensures
            final(self).wf(),
            match outcome_spec(old(self).low, old(self).high, input_match, output_match) {
                Outcome::Narrowed { low, high } => final(self).low == low && final(self).high == high
                    && !final(self).finished && r == BisectionStep::Propose(mid_spec(low, high)),
                Outcome::Found => final(self).finished && r == BisectionStep::Prove(
                    mid_spec(old(self).low, old(self).high),
                ) && final(self).low == old(self).low && final(self).high == old(self).high,
                Outcome::Exhausted => final(self).finished && r == BisectionStep::Concede
                    && final(self).low == old(self).low && final(self).high == old(self).high,
            },
    {
        let mid = self.mid();
        match next_outcome(self.low, self.high, input_match, output_match) {
            Outcome::Narrowed { low, high } => {
                self.low = low;
                self.high = high;
                BisectionStep::Propose(midpoint(low, high))
            },
            Outcome::Found => {
                self.finished = true;
                BisectionStep::Prove(mid)
            },
            Outcome::Exhausted => {
                self.finished = true;
                BisectionStep::Concede
            },
        }
    }
}

/// The responder's answer to a proposal at `mid`: whether the proposed input
/// hash and output hash equal its own trace entry there.
pub fn answer(trace: &Vec<(Vec<u8>, Vec<u8>)>, mid: usize, h_in: &Vec<u8>, h_out: &Vec<u8>) -> (r: (bool, bool))
    requires
        mid < trace@.len(),
    ensures
        r.0 == (h_in@ == trace@[mid as int].0@),
        r.1 == (h_out@ == trace@[mid as int].1@),
{
    let a = bytes_equal(h_in.as_slice(), trace[mid].0.as_slice());
    let b = bytes_equal(h_out.as_slice(), trace[mid].1.as_slice());
    (a, b)
}

/// The answers of an honest responder when the two traces first disagree at
/// operator `k` and disagree from there on: everything before `k` matches,
/// at `k` the input matches and the output does not, after `k` nothing does.
pub open spec fn single_disagreement_answer(mid: usize, k: usize) -> (bool, bool) {
    (mid <= k, mid < k)
}

/// Whether bisection from `[low, high]` against those answers reaches
/// `Found` at `k` within `t` narrowing steps.
pub open spec fn finds_within(low: usize, high: usize, k: usize, t: nat) -> bool
    decreases t,
{
    let mid = mid_spec(low, high);
    let a = single_disagreement_answer(mid, k);
    match outcome_spec(low, high, a.0, a.1) {
        Outcome::Found => mid == k,
        Outcome::Exhausted => false,
        Outcome::Narrowed { low: l, high: h } => t > 0 && finds_within(l, h, k, (t - 1) as nat),
    }
}

proof fn lemma_finds_within(low: usize, high: usize, k: usize, t: nat)
    requires
        low <= k <= high,
        high - low + 1 <= pow2(t + 1) - 1,
    ensures
        finds_within(low, high, k, t),
    decreases t,
{
    let mid = mid_spec(low, high);
    if mid != k {
        assert(pow2(t + 1) == 2 * pow2(t));
        if t == 0 {
            assert(pow2(0) == 1);
        } else {
            if mid < k {
                lemma_finds_within((mid + 1) as usize, high, k, (t - 1) as nat);
            } else {
                lemma_finds_within(low, (mid - 1) as usize, k, (t - 1) as nat);
            }
        }
    }
}

/// Bisection convergence. For a model of `n >= 1` operators and a single
/// disagreement at `k < n`, the challenger's bisection locates operator `k`
/// after at most ⌈log₂ n⌉ narrowing steps.
pub proof fn lemma_bisection_converges(n: usize, k: usize)
    requires
        n >= 1,
        k < n,
    ensures
        finds_within(0, (n - 1) as usize, k, tree_depth(n as nat)),
{
    lemma_pow2_depth(n as nat);
    assert(pow2(tree_depth(n as nat) + 1) == 2 * pow2(tree_depth(n as nat)));
    lemma_finds_within(0, (n - 1) as usize, k, tree_depth(n as nat));
}

} // verus!
