//! The execution trace recorder: for each operator, the hash of the value
//! map before it ran and after it ran.

use vstd::prelude::*;
use crate::keyed::name_bytes;
use crate::tensor::TensorView;
use crate::tensor_map::{TensorMap, map_hash_spec, hash_view};

verus! {

/// The step at which the operator kernel failed; the trace stops before it.
#[derive(Clone, Copy, Debug, PartialEq, Eq, Structural)]
pub struct ExecutionError {
    pub at: usize,
}

/// The trace of a run through the given states: entry `i` holds the hashes
/// of state `i` and state `i + 1`.
pub open spec fn trace_of(states: Seq<Map<Seq<u8>, Seq<u8>>>) -> Seq<(Seq<u8>, Seq<u8>)> {
    Seq::new(
        (states.len() - 1) as nat,
        |i: int| (map_hash_spec(states[i]), map_hash_spec(states[i + 1])),
    )
}

/// A trace entry as plain values.
pub open spec fn steps_view(v: Seq<(Vec<u8>, Vec<u8>)>) -> Seq<(Seq<u8>, Seq<u8>)> {
    v.map_values(|e: (Vec<u8>, Vec<u8>)| (e.0@, e.1@))
}

/// Records a run of a model, one operator at a time.
pub struct TraceRecorder {
    state: TensorMap,
    steps: Vec<(Vec<u8>, Vec<u8>)>,
    keep_snapshots: bool,
    snapshots: Vec<TensorMap>,
    history: Ghost<Seq<Map<Seq<u8>, Seq<u8>>>>,
}

impl TraceRecorder {
    /// Name to tensor hash for every state so far, the current one last.
    pub closed spec fn history(&self) -> Seq<Map<Seq<u8>, Seq<u8>>> {
        self.history@
    }

    /// The trace recorded so far.
    pub closed spec fn trace_view(&self) -> Seq<(Seq<u8>, Seq<u8>)> {
        steps_view(self.steps@)
    }

    /// Whether a copy of the state before each operator is kept.
    pub closed spec fn keeps_snapshots(&self) -> bool {
        self.keep_snapshots
    }

    /// The current value map.
    pub closed spec fn state_view(&self) -> Map<Seq<u8>, TensorView> {
        self.state.view()
    }

    pub closed spec fn wf(&self) -> bool {
        &&& self.state.wf()
        &&& self.history@.len() == self.steps@.len() + 1
        &&& self.history@.last() == hash_view(self.state.view())
        &&& steps_view(self.steps@) == trace_of(self.history@)
        &&& self.keep_snapshots ==> self.snapshots@.len() == self.steps@.len()
        &&& !self.keep_snapshots ==> self.snapshots@.len() == 0
        &&& forall|i: int| 0 <= i < self.snapshots@.len() ==> (#[trigger] self.snapshots@[i]).wf()
            && hash_view(self.snapshots@[i].view()) == self.history@[i]
    }

    /// Starts a run from `inputs` with the initializers bound in (an
    /// initializer replaces an input of the same name). With
    /// `keep_snapshots`, a copy of the state before each operator is kept.
    pub fn new(inputs: TensorMap, initializers: &TensorMap, keep_snapshots: bool) -> (r: TraceRecorder)
        requires
            inputs.wf(),
            initializers.wf(),
        ensures
            r.wf(),
            r.state_view() == inputs.view().union_prefer_right(initializers.view()),
            r.history() == seq![hash_view(r.state_view())],
            r.trace_view().len() == 0,
            r.keeps_snapshots() == keep_snapshots,
    {
        let mut state = inputs;
        let ghost start = state.view();
        let entries = initializers.entries();
        let ghost es = initializers.entry_seq();
        let mut i: usize = 0;
        while i < entries.len()
            invariant
                initializers.wf(),
                state.wf(),
                es == initializers.entry_seq(),
                entries@.map_values(|e: (String, crate::tensor::Tensor)| (name_bytes(e.0@), e.1@)) == es,
                i <= entries@.len(),
                state.view() == start.union_prefer_right(crate::tensor_map::seq_map(es.subrange(0, i as int))),
            decreases entries@.len() - i,
        {
            proof {
                assert(es[i as int] == (name_bytes(entries@[i as int].0@), entries@[i as int].1@));
                assert(crate::tensor::tensor_valid(es[i as int].1));
                crate::tensor_map::lemma_prefix_map(es, i as int);
            }
            let name = entries[i].0.clone();
            let t = entries[i].1.duplicate();
            state.insert(name, t);
            i = i + 1;
            proof {
                assert(state.view() =~= start.union_prefer_right(crate::tensor_map::seq_map(es.subrange(0, i as int))));
            }
        }
        proof {
            assert(es.subrange(0, i as int) =~= es);
        }
        let ghost h0 = hash_view(state.view());
        let ghost hist = seq![h0];
        let r = TraceRecorder {
            state,
            steps: Vec::new(),
            keep_snapshots,
            snapshots: Vec::new(),
            history: Ghost(hist),
        };
        assert(steps_view(r.steps@) =~= trace_of(r.history@));
        r
    }

    /// The current value map, on which the next operator runs.
    pub fn state(&self) -> (r: &TensorMap)
        requires
            self.wf(),
        ensures
            r.wf(),
            r.view() == self.state_view(),
    {
        &self.state
    }

    /// Records one operator run: `after` is the value map it left behind.
    pub fn record_step(&mut self, after: TensorMap)
        requires
            old(self).wf(),
            after.wf(),
        ensures
            final(self).wf(),
            final(self).state_view() == after.view(),
            final(self).keeps_snapshots() == old(self).keeps_snapshots(),
            final(self).history() == old(self).history().push(hash_view(after.view())),
            final(self).trace_view() == old(self).trace_view().push(
                (map_hash_spec(hash_view(old(self).state_view())), map_hash_spec(hash_view(after.view()))),
            ),
    {
        let h_in = self.state.map_hash();
        let h_out = after.map_hash();
        if self.keep_snapshots {
            let snap = self.state.duplicate();
            self.snapshots.push(snap);
        }
        let ghost old_steps = self.steps@;
        self.steps.push((h_in, h_out));
        self.state = after;
        let ghost h = self.history@;
        let ghost h2 = h.push(hash_view(self.state.view()));
        self.history = Ghost(h2);
        proof {
            assert(steps_view(self.steps@) =~= steps_view(old_steps).push((h_in@, h_out@)));
            assert(trace_of(h2) =~= trace_of(h).push((map_hash_spec(h[h.len() - 1]), map_hash_spec(h2.last()))));
        }
    }

    /// The trace recorded so far.
    pub fn trace(&self) -> (r: &Vec<(Vec<u8>, Vec<u8>)>)
        requires
            self.wf(),
        ensures
            steps_view(r@) == self.trace_view(),
    {
        &self.steps
    }

    /// The state before operator `i`, if snapshots are kept.
    pub fn snapshot(&self, i: usize) -> (r: Option<&TensorMap>)
        requires
            self.wf(),
        ensures
            r is Some <==> self.keeps_snapshots() && i < self.trace_view().len(),
            r is Some ==> r->0.wf() && hash_view(r->0.view()) == self.history()[i as int],
    {
        if self.keep_snapshots && i < self.snapshots.len() {
            Some(&self.snapshots[i])
        } else {
            None
        }
    }

    /// The error for a kernel failure at the next operator.
    pub fn failure(&self) -> (r: ExecutionError)
        requires
            self.wf(),
        ensures
            r.at == self.trace_view().len(),
    {
        ExecutionError { at: self.steps.len() }
    }
}

/// Trace agreement. Two recorders that went through the same states (as
/// maps from names to tensor hashes, whatever the order in which entries
/// were added) hold byte-identical traces.
pub proof fn lemma_trace_agreement(a: &TraceRecorder, b: &TraceRecorder)
    requires
        a.wf(),
        b.wf(),
        a.history() == b.history(),
    ensures
        a.trace_view() == b.trace_view(),
{
}

} // verus!
