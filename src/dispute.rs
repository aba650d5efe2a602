//! The dispute state machine: model registry, inference requests and
//! responses, and the turn-by-turn bisection game between a responder and a
//! challenger, settled by a single-operator proof or by a timeout.

use vstd::prelude::*;
use crate::bisection::{Outcome, mid_spec, outcome_spec, midpoint, next_outcome};
use crate::bytes::bytes_equal;
use crate::public_values::{PublicValuesView, pv_parse, pv_bytes, pv_valid, parse_public_values,
    lemma_public_values_round_trip};

verus! {

/// The two sides of a challenge.
#[derive(Clone, Copy, Debug, PartialEq, Eq, Structural)]
pub enum Party {
    Responder,
    Challenger,
}

/// Where a challenge stands.
#[derive(Clone, Copy, Debug, PartialEq, Eq, Structural)]
pub enum ChallengeState {
    /// The challenger is to propose an operator execution.
    AwaitingChallenger,
    /// The responder is to answer the last proposal.
    AwaitingResponder,
    /// The challenger is to submit the single-operator proof.
    AwaitingProof,
    /// Finished, with this winner.
    Resolved(Party),
}

/// Why a call was rejected. A rejected call changes nothing.
#[derive(Clone, Copy, Debug, PartialEq, Eq, Structural)]
pub enum DisputeError {
    /// Unknown id, a call out of turn, or by the wrong party.
    ProtocolViolation,
    /// The window for this call has elapsed.
    Timeout,
}

/// One open or finished challenge.
#[derive(Clone, Debug)]
pub struct Challenge {
    pub inference_id: usize,
    pub responder: u64,
    pub challenger: u64,
    pub state: ChallengeState,
    /// The interval of operators that still holds the disagreement.
    pub low: usize,
    pub high: usize,
    /// The hashes of the last proposal.
    pub last_in: Vec<u8>,
    pub last_out: Vec<u8>,
    /// The party to move must act by this time.
    pub deadline: u64,
}

/// `now + window`, capped at the largest time.
pub open spec fn deadline_after(now: u64, window: u64) -> u64 {
    if now + window > u64::MAX {
        u64::MAX
    } else {
        (now + window) as u64
    }
}

/// `now + window`, capped at the largest time.
pub(crate) fn deadline_from(now: u64, window: u64) -> (r: u64)
    ensures
        r == deadline_after(now, window),
{
    if now > u64::MAX - window {
        u64::MAX
    } else {
        now + window
    }
}

/// Whether the submitted public values and proof settle the challenge for
/// the challenger: the proof verifies, and it shows the operator at the
/// contested index of the registered model mapping the agreed input state
/// to the output state that the challenger proposed (which the responder
/// disputed).
pub open spec fn challenger_wins(c: Challenge, root: Seq<u8>, pv: Seq<u8>, proof_valid: bool) -> bool {
    &&& proof_valid
    &&& pv_parse(pv) is Some
    &&& pv_parse(pv)->0.model_root == root
    &&& pv_parse(pv)->0.index == mid_spec(c.low, c.high) as u64
    &&& pv_parse(pv)->0.input_hash == c.last_in@
    &&& pv_parse(pv)->0.output_hash == c.last_out@
}

/// A proposal by `caller` with hashes `h_in`, `h_out` at time `now`.
pub open spec fn propose_spec(c: Challenge, caller: u64, h_in: Vec<u8>, h_out: Vec<u8>, now: u64, window: u64) -> (Result<(), DisputeError>, Challenge) {
    if c.state != ChallengeState::AwaitingChallenger || caller != c.challenger {
        (Err(DisputeError::ProtocolViolation), c)
    } else if now > c.deadline {
        (Err(DisputeError::Timeout), c)
    } else {
        (Ok(()), Challenge {
            state: ChallengeState::AwaitingResponder,
            last_in: h_in,
            last_out: h_out,
            deadline: deadline_after(now, window),
            ..c
        })
    }
}

/// An answer by `caller` to the last proposal at time `now`.
pub open spec fn respond_spec(c: Challenge, caller: u64, input_match: bool, output_match: bool, now: u64, window: u64) -> (Result<(), DisputeError>, Challenge) {
    if c.state != ChallengeState::AwaitingResponder || caller != c.responder || c.low > c.high {
        (Err(DisputeError::ProtocolViolation), c)
    } else if now > c.deadline {
        (Err(DisputeError::Timeout), c)
    } else {
        match outcome_spec(c.low, c.high, input_match, output_match) {
            Outcome::Narrowed { low, high } => (Ok(()), Challenge {
                state: ChallengeState::AwaitingChallenger,
                low,
                high,
                deadline: deadline_after(now, window),
                ..c
            }),
            Outcome::Found => (Ok(()), Challenge {
                state: ChallengeState::AwaitingProof,
                deadline: deadline_after(now, window),
                ..c
            }),
            Outcome::Exhausted => (Ok(()), Challenge {
                state: ChallengeState::Resolved(Party::Responder),
                ..c
            }),
        }
    }
}

/// A resolution attempt by `caller` at time `now`.
pub open spec fn resolve_spec(c: Challenge, caller: u64, root: Seq<u8>, pv: Seq<u8>, proof_valid: bool, now: u64) -> (Result<Party, DisputeError>, Challenge) {
    if c.state != ChallengeState::AwaitingProof || caller != c.challenger {
        (Err(DisputeError::ProtocolViolation), c)
    } else if now > c.deadline {
        (Err(DisputeError::Timeout), c)
    } else {
        let w = if challenger_wins(c, root, pv, proof_valid) {
            Party::Challenger
        } else {
            Party::Responder
        };
        (Ok(w), Challenge { state: ChallengeState::Resolved(w), ..c })
    }
}

/// The party that wins when the party to move lets the deadline pass.
pub open spec fn waiting_party(s: ChallengeState) -> Party {
    match s {
        ChallengeState::AwaitingResponder => Party::Challenger,
        _ => Party::Responder,
    }
}

/// An expiry call at time `now`.
pub open spec fn expire_spec(c: Challenge, now: u64) -> (Result<Party, DisputeError>, Challenge) {
    if c.state is Resolved {
        (Err(DisputeError::ProtocolViolation), c)
    } else if now <= c.deadline {
        (Err(DisputeError::ProtocolViolation), c)
    } else {
        let w = waiting_party(c.state);
        (Ok(w), Challenge { state: ChallengeState::Resolved(w), ..c })
    }
}

impl Challenge {
    /// The operator that the bisection currently points at.
    pub fn mid(&self) -> (r: usize)
        ensures
            r == mid_spec(self.low, self.high),
    {
        midpoint(self.low, self.high)
    }

    /// The challenger proposes its trace entry at the current operator.
    pub fn propose(&mut self, caller: u64, h_in: Vec<u8>, h_out: Vec<u8>, now: u64, window: u64) -> (r: Result<(), DisputeError>)
        ensures
            (r, *final(self)) == propose_spec(*old(self), caller, h_in, h_out, now, window),
    {
        if self.state != ChallengeState::AwaitingChallenger || caller != self.challenger {
            return Err(DisputeError::ProtocolViolation);
        }
        if now > self.deadline {
            return Err(DisputeError::Timeout);
        }
        self.state = ChallengeState::AwaitingResponder;
        self.last_in = h_in;
        self.last_out = h_out;
        self.deadline = deadline_from(now, window);
        Ok(())
    }

    /// The responder says whether the proposed input and output hashes
    /// match its own trace.
    pub fn respond(&mut self, caller: u64, input_match: bool, output_match: bool, now: u64, window: u64) -> (r: Result<(), DisputeError>)
        ensures
            (r, *final(self)) == respond_spec(*old(self), caller, input_match, output_match, now, window),
    {
        if self.state != ChallengeState::AwaitingResponder || caller != self.responder || self.low > self.high {
            return Err(DisputeError::ProtocolViolation);
        }
        if now > self.deadline {
            return Err(DisputeError::Timeout);
        }
        match next_outcome(self.low, self.high, input_match, output_match) {
            Outcome::Narrowed { low, high } => {
                self.state = ChallengeState::AwaitingChallenger;
                self.low = low;
                self.high = high;
                self.deadline = deadline_from(now, window);
            },
            Outcome::Found => {
                self.state = ChallengeState::AwaitingProof;
                self.deadline = deadline_from(now, window);
            },
            Outcome::Exhausted => {
                self.state = ChallengeState::Resolved(Party::Responder);
            },
        }
        Ok(())
    }

    /// The challenger submits public values and the verdict of the proof
    /// system on them; the challenge is resolved either way.
    pub fn resolve(&mut self, caller: u64, root: &Vec<u8>, public_values: &Vec<u8>, proof_valid: bool, now: u64) -> (r: Result<Party, DisputeError>)
        ensures
            (r, *final(self)) == resolve_spec(*old(self), caller, root@, public_values@, proof_valid, now),
    {
        if self.state != ChallengeState::AwaitingProof || caller != self.challenger {
            return Err(DisputeError::ProtocolViolation);
        }
        if now > self.deadline {
            return Err(DisputeError::Timeout);
        }
        let mut wins = false;
        if proof_valid {
            match parse_public_values(public_values) {
                Some(pv) => {
                    let mid = self.mid();
                    wins = bytes_equal(pv.model_root.as_slice(), root.as_slice())
                        && pv.index == mid as u64
                        && bytes_equal(pv.input_hash.as_slice(), self.last_in.as_slice())
                        && bytes_equal(pv.output_hash.as_slice(), self.last_out.as_slice());
                },
                None => {},
            }
        }
        let w = if wins { Party::Challenger } else { Party::Responder };
        self.state = ChallengeState::Resolved(w);
        Ok(w)
    }

    /// Anyone ends a challenge whose deadline has passed; the party that was
    /// waiting wins.
    pub fn expire(&mut self, now: u64) -> (r: Result<Party, DisputeError>)
        ensures
            (r, *final(self)) == expire_spec(*old(self), now),
    {
        if let ChallengeState::Resolved(_) = self.state {
            return Err(DisputeError::ProtocolViolation);
        }
        if now <= self.deadline {
            return Err(DisputeError::ProtocolViolation);
        }
        let w = match self.state {
            ChallengeState::AwaitingResponder => Party::Challenger,
            _ => Party::Responder,
        };
        self.state = ChallengeState::Resolved(w);
        Ok(w)
    }
}

/// A trace whose every entry starts from the state the previous one ended in.
pub open spec fn chained(t: Seq<(Seq<u8>, Seq<u8>)>) -> bool {
    forall|i: int| 0 <= i < t.len() - 1 ==> (#[trigger] t[i + 1]).0 == t[i].1
}

/// An honest trace: each entry's output is what the operator at that index
/// makes of its input.
pub open spec fn honest_trace(t: Seq<(Seq<u8>, Seq<u8>)>, step: spec_fn(Seq<u8>, nat) -> Seq<u8>) -> bool {
    forall|i: int| 0 <= i < t.len() ==> (#[trigger] t[i]).1 == step(t[i].0, i as nat)
}

/// Soundness of the proof system for these public values: if the proof
/// verifies, the committed output is what the committed operator makes of
/// the committed input.
pub open spec fn sound_proof(pv: Seq<u8>, proof_valid: bool, step: spec_fn(Seq<u8>, nat) -> Seq<u8>) -> bool {
    proof_valid && pv_parse(pv) is Some ==> pv_parse(pv)->0.output_hash == step(
        pv_parse(pv)->0.input_hash,
        pv_parse(pv)->0.index as nat,
    )
}

/// Game fairness, responder side. A responder whose trace is honest and who
/// answers the challenger's proposal from that trace cannot lose by the
/// answer, nor by any proof that the proof system accepts soundly.
pub proof fn lemma_honest_responder_wins(
    c: Challenge,
    t: Seq<(Seq<u8>, Seq<u8>)>,
    step: spec_fn(Seq<u8>, nat) -> Seq<u8>,
    now: u64,
    window: u64,
    caller: u64,
    root: Seq<u8>,
    pv: Seq<u8>,
    proof_valid: bool,
    later: u64,
)
    requires
        c.state == ChallengeState::AwaitingResponder,
        c.low <= c.high < t.len(),
        honest_trace(t, step),
        sound_proof(pv, proof_valid, step),
    ensures
        ({
            let mid = mid_spec(c.low, c.high) as int;
            let c1 = respond_spec(c, c.responder, c.last_in@ == t[mid].0, c.last_out@ == t[mid].1, now, window).1;
            &&& c1.state != ChallengeState::Resolved(Party::Challenger)
            &&& resolve_spec(c1, caller, root, pv, proof_valid, later).0 != Ok::<Party, DisputeError>(Party::Challenger)
        }),
{
    let mid = mid_spec(c.low, c.high) as int;
    let c1 = respond_spec(c, c.responder, c.last_in@ == t[mid].0, c.last_out@ == t[mid].1, now, window).1;
    if c1.state == ChallengeState::AwaitingProof && challenger_wins(c1, root, pv, proof_valid) {
        assert(c1.low == c.low && c1.high == c.high);
        assert(t[mid].1 == step(t[mid].0, mid as nat));
    }
}

/// The bisection invariant of an honest challenger with trace `t` against a
/// responder whose answers come from its own trace `r`: the interval is
/// inside both traces, the traces agree on the input at `low`, and differ
/// on the output at `high`.
pub open spec fn bisection_inv(c: Challenge, t: Seq<(Seq<u8>, Seq<u8>)>, r: Seq<(Seq<u8>, Seq<u8>)>) -> bool {
    &&& c.low <= c.high < t.len()
    &&& t.len() == r.len()
    &&& r[c.low as int].0 == t[c.low as int].0
    &&& r[c.high as int].1 != t[c.high as int].1
}

/// Game fairness, challenger side, one round. An honest challenger proposes
/// its own entry at the midpoint; the responder answers from a chained trace
/// of its own. The challenge never ends for the responder: either it awaits
/// the proof at the midpoint, with the challenger's entry on record, or the
/// invariant holds on a strictly smaller interval.
pub proof fn lemma_honest_challenger_round(
    c: Challenge,
    t: Seq<(Seq<u8>, Seq<u8>)>,
    r: Seq<(Seq<u8>, Seq<u8>)>,
    h_in: Vec<u8>,
    h_out: Vec<u8>,
    now: u64,
    later: u64,
    window: u64,
)
    requires
        c.state == ChallengeState::AwaitingChallenger,
        bisection_inv(c, t, r),
        chained(t),
        chained(r),
        now <= c.deadline,
        later <= deadline_after(now, window),
        h_in@ == t[mid_spec(c.low, c.high) as int].0,
        h_out@ == t[mid_spec(c.low, c.high) as int].1,
    ensures
        ({
            let mid = mid_spec(c.low, c.high) as int;
            let p = propose_spec(c, c.challenger, h_in, h_out, now, window);
            let q = respond_spec(p.1, c.responder, r[mid].0 == h_in@, r[mid].1 == h_out@, later, window);
            &&& p.0 is Ok
            &&& q.0 is Ok
            &&& (q.1.state == ChallengeState::AwaitingProof && q.1.low == c.low && q.1.high == c.high
                && q.1.last_in@ == t[mid].0 && q.1.last_out@ == t[mid].1)
                || (q.1.state == ChallengeState::AwaitingChallenger && bisection_inv(q.1, t, r)
                && q.1.high - q.1.low < c.high - c.low)
        }),
{
    let mid = mid_spec(c.low, c.high) as int;
    let p = propose_spec(c, c.challenger, h_in, h_out, now, window);
    let im = r[mid].0 == h_in@;
    let om = r[mid].1 == h_out@;
    if im && om {
        if mid >= c.high as int {
            assert(mid == c.high);
        } else {
            assert(r[mid + 1].0 == r[mid].1);
            assert(t[mid + 1].0 == t[mid].1);
        }
    } else if !im {
        if mid <= c.low as int {
            assert(mid == c.low);
        } else {
            assert(r[(mid - 1) + 1].0 == r[mid - 1].1);
            assert(t[(mid - 1) + 1].0 == t[mid - 1].1);
        }
    }
}

/// Game fairness, challenger side, the end. When the challenge awaits the
/// proof with the challenger's honest entry on record, submitting the
/// public values of that operator's run, with a proof that verifies, wins.
pub proof fn lemma_honest_challenger_proof_wins(c: Challenge, root: Seq<u8>, v: PublicValuesView, now: u64)
    requires
        c.state == ChallengeState::AwaitingProof,
        now <= c.deadline,
        pv_valid(v),
        v.model_root == root,
        v.index == mid_spec(c.low, c.high) as u64,
        v.input_hash == c.last_in@,
        v.output_hash == c.last_out@,
    ensures
        resolve_spec(c, c.challenger, root, pv_bytes(v), true, now).0 == Ok::<Party, DisputeError>(Party::Challenger),
{
    lemma_public_values_round_trip(v);
}

} // verus!
