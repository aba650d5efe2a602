//! The shared on-chain state: registered models, inference requests and
//! their responses, and the challenges raised against responses.

use vstd::prelude::*;
use crate::dispute::{Challenge, ChallengeState, DisputeError, Party, deadline_after, deadline_from, propose_spec,
    respond_spec, resolve_spec, expire_spec};

verus! {

/// A registered model: where it is stored, the root of the Merkle tree over
/// its operators, and the number of operators.
#[derive(Clone, Debug)]
pub struct RegisteredModel {
    pub uri: String,
    pub root: Vec<u8>,
    pub num_operators: u64,
    pub registrar: u64,
}

/// A response to an inference request.
#[derive(Clone, Debug)]
pub struct Response {
    pub responder: u64,
    pub output_data: Vec<u8>,
    pub output_hash: Vec<u8>,
    pub responded_at: u64,
}

/// An inference request and, once given, its response.
#[derive(Clone, Debug)]
pub struct Inference {
    pub model_id: usize,
    pub requester: u64,
    pub input_data: Vec<u8>,
    pub input_hash: Vec<u8>,
    pub response: Option<Response>,
}

/// The registry and the challenges against it.
pub struct FaultProof {
    models: Vec<RegisteredModel>,
    inferences: Vec<Inference>,
    challenges: Vec<Challenge>,
    challenge_window: u64,
    response_window: u64,
}

impl FaultProof {
    pub closed spec fn models_spec(&self) -> Seq<RegisteredModel> {
        self.models@
    }

    pub closed spec fn inferences_spec(&self) -> Seq<Inference> {
        self.inferences@
    }

    pub closed spec fn challenges_spec(&self) -> Seq<Challenge> {
        self.challenges@
    }

    /// Seconds after a response during which it may be challenged.
    pub closed spec fn challenge_window_spec(&self) -> u64 {
        self.challenge_window
    }

    /// Seconds the party to move has to act.
    pub closed spec fn response_window_spec(&self) -> u64 {
        self.response_window
    }

    /// Every inference names a registered model; every challenge names an inference.
    pub open spec fn wf(&self) -> bool {
        &&& forall|i: int| 0 <= i < self.inferences_spec().len() ==> (#[trigger] self.inferences_spec()[i]).model_id
            < self.models_spec().len()
        &&& forall|i: int| 0 <= i < self.challenges_spec().len() ==> (#[trigger] self.challenges_spec()[i]).inference_id
            < self.inferences_spec().len()
    }

    /// The Merkle root of the model that challenge `id` is about.
    pub open spec fn challenge_root(&self, id: int) -> Seq<u8> {
        self.models_spec()[self.inferences_spec()[self.challenges_spec()[id].inference_id as int].model_id as int].root@
    }

    pub fn new(challenge_window: u64, response_window: u64) -> (r: FaultProof)
        ensures
            r.wf(),
            r.models_spec().len() == 0,
            r.inferences_spec().len() == 0,
            r.challenges_spec().len() == 0,
            r.challenge_window_spec() == challenge_window,
            r.response_window_spec() == response_window,
    {
        FaultProof {
            models: Vec::new(),
            inferences: Vec::new(),
            challenges: Vec::new(),
            challenge_window,
            response_window,
        }
    }

    /// Registers a model; its id is its position.
    pub fn register_model(&mut self, uri: String, root: Vec<u8>, num_operators: u64, registrar: u64) -> (r: usize)
        requires
            old(self).wf(),
        ensures
            final(self).wf(),
            r == old(self).models_spec().len(),
            final(self).models_spec() == old(self).models_spec().push(RegisteredModel { uri, root, num_operators, registrar }),
            final(self).inferences_spec() == old(self).inferences_spec(),
            final(self).challenges_spec() == old(self).challenges_spec(),
            final(self).challenge_window_spec() == old(self).challenge_window_spec(),
            final(self).response_window_spec() == old(self).response_window_spec(),
    {
        let id = self.models.len();
        self.models.push(RegisteredModel { uri, root, num_operators, registrar });
        id
    }

    /// The model registered under `id`.
    pub fn model(&self, id: usize) -> (r: Option<&RegisteredModel>)
        ensures
            r is Some <==> id < self.models_spec().len(),
            r is Some ==> *r->0 == self.models_spec()[id as int],
    {
        if id < self.models.len() {
            Some(&self.models[id])
        } else {
            None
        }
    }

    /// The inference registered under `id`.
    pub fn inference(&self, id: usize) -> (r: Option<&Inference>)
        ensures
            r is Some <==> id < self.inferences_spec().len(),
            r is Some ==> *r->0 == self.inferences_spec()[id as int],
    {
        if id < self.inferences.len() {
            Some(&self.inferences[id])
        } else {
            None
        }
    }

    /// The challenge registered under `id`.
    pub fn challenge(&self, id: usize) -> (r: Option<&Challenge>)
        ensures
            r is Some <==> id < self.challenges_spec().len(),
            r is Some ==> *r->0 == self.challenges_spec()[id as int],
    {
        if id < self.challenges.len() {
            Some(&self.challenges[id])
        } else {
            None
        }
    }

    /// Requests an inference on a registered model.
    pub fn request_inference(
        &mut self,
        model_id: usize,
        requester: u64,
        input_data: Vec<u8>,
        input_hash: Vec<u8>,
    ) -> (r: Result<usize, DisputeError>)
        requires
            old(self).wf(),
        ensures
            final(self).wf(),
            final(self).models_spec() == old(self).models_spec(),
            final(self).challenges_spec() == old(self).challenges_spec(),
            final(self).challenge_window_spec() == old(self).challenge_window_spec(),
            final(self).response_window_spec() == old(self).response_window_spec(),
            model_id >= old(self).models_spec().len() ==> r == Err::<usize, DisputeError>(DisputeError::ProtocolViolation)
                && final(self).inferences_spec() == old(self).inferences_spec(),
            model_id < old(self).models_spec().len() ==> r == Ok::<usize, DisputeError>(old(self).inferences_spec().len() as usize)
                && final(self).inferences_spec() == old(self).inferences_spec().push(
                Inference { model_id, requester, input_data, input_hash, response: None },
            ),
    {
        if model_id >= self.models.len() {
            return Err(DisputeError::ProtocolViolation);
        }
        let id = self.inferences.len();
        self.inferences.push(Inference { model_id, requester, input_data, input_hash, response: None });
        Ok(id)
    }

    /// Posts the response to an inference that has none yet.
    pub fn respond_inference(
        &mut self,
        inference_id: usize,
        responder: u64,
        output_data: Vec<u8>,
        output_hash: Vec<u8>,
        now: u64,
    ) -> (r: Result<(), DisputeError>)
        requires
            old(self).wf(),
        ensures
            final(self).wf(),
            final(self).models_spec() == old(self).models_spec(),
            final(self).challenges_spec() == old(self).challenges_spec(),
            final(self).challenge_window_spec() == old(self).challenge_window_spec(),
            final(self).response_window_spec() == old(self).response_window_spec(),
            (inference_id >= old(self).inferences_spec().len() || old(self).inferences_spec()[inference_id as int].response is Some)
                ==> r == Err::<(), DisputeError>(DisputeError::ProtocolViolation)
                && final(self).inferences_spec() == old(self).inferences_spec(),
            !(inference_id >= old(self).inferences_spec().len() || old(self).inferences_spec()[inference_id as int].response is Some)
                ==> r is Ok && final(self).inferences_spec() == old(self).inferences_spec().update(
                inference_id as int,
                Inference {
                    response: Some(Response { responder, output_data, output_hash, responded_at: now }),
                    ..old(self).inferences_spec()[inference_id as int]
                },
            ),
    {
        if inference_id >= self.inferences.len() || self.inferences[inference_id].response.is_some() {
            return Err(DisputeError::ProtocolViolation);
        }
        self.inferences[inference_id].response = Some(Response { responder, output_data, output_hash, responded_at: now });
        Ok(())
    }

    /// Opens a challenge against the response to an inference, within the
    /// challenge window. The bisection starts on all operators of the
    /// model, and the challenger is to move.
    pub fn create_challenge(&mut self, inference_id: usize, challenger: u64, now: u64) -> (r: Result<usize, DisputeError>)
        requires
            old(self).wf(),
        ensures
            final(self).wf(),
            final(self).models_spec() == old(self).models_spec(),
            final(self).inferences_spec() == old(self).inferences_spec(),
            final(self).challenge_window_spec() == old(self).challenge_window_spec(),
            final(self).response_window_spec() == old(self).response_window_spec(),
            ({
                let infs = old(self).inferences_spec();
                let bad = inference_id >= infs.len() || infs[inference_id as int].response is None
                    || old(self).models_spec()[infs[inference_id as int].model_id as int].num_operators == 0
                    || old(self).models_spec()[infs[inference_id as int].model_id as int].num_operators - 1 > usize::MAX;
                &&& bad ==> r == Err::<usize, DisputeError>(DisputeError::ProtocolViolation)
                    && final(self).challenges_spec() == old(self).challenges_spec()
                &&& !bad && now > deadline_after(
                    infs[inference_id as int].response->0.responded_at,
                    old(self).challenge_window_spec(),
                ) ==> r == Err::<usize, DisputeError>(DisputeError::Timeout)
                    && final(self).challenges_spec() == old(self).challenges_spec()
                &&& !bad && now <= deadline_after(
                    infs[inference_id as int].response->0.responded_at,
                    old(self).challenge_window_spec(),
                ) ==> r == Ok::<usize, DisputeError>(old(self).challenges_spec().len() as usize)
                    && final(self).challenges_spec().len() == old(self).challenges_spec().len() + 1
                    && final(self).challenges_spec().drop_last() == old(self).challenges_spec()
                    && ({
                    let c = final(self).challenges_spec().last();
                    &&& c.inference_id == inference_id
                    &&& c.responder == infs[inference_id as int].response->0.responder
                    &&& c.challenger == challenger
                    &&& c.state == ChallengeState::AwaitingChallenger
                    &&& c.low == 0
                    &&& c.high == old(self).models_spec()[infs[inference_id as int].model_id as int].num_operators - 1
                    &&& c.deadline == deadline_after(now, old(self).response_window_spec())
                })
            }),
    {
        if inference_id >= self.inferences.len() {
            return Err(DisputeError::ProtocolViolation);
        }
        let inf = &self.inferences[inference_id];
        let n = self.models[inf.model_id].num_operators;
        match &inf.response {
            None => {
                return Err(DisputeError::ProtocolViolation);
            },
            Some(resp) => {
                if n == 0 || n - 1 > usize::MAX as u64 {
                    return Err(DisputeError::ProtocolViolation);
                }
                let window_end = deadline_from(resp.responded_at, self.challenge_window);
                if now > window_end {
                    return Err(DisputeError::Timeout);
                }
                let c = Challenge {
                    inference_id,
                    responder: resp.responder,
                    challenger,
                    state: ChallengeState::AwaitingChallenger,
                    low: 0,
                    high: (n - 1) as usize,
                    last_in: Vec::new(),
                    last_out: Vec::new(),
                    deadline: deadline_from(now, self.response_window),
                };
                let id = self.challenges.len();
                let ghost prev = self.challenges@;
                self.challenges.push(c);
                assert(self.challenges@.drop_last() =~= prev);
                Ok(id)
            },
        }
    }

    /// The challenger proposes its trace entry at the current operator.
    pub fn propose_operator_execution(
        &mut self,
        challenge_id: usize,
        caller: u64,
        input_hash: Vec<u8>,
        output_hash: Vec<u8>,
        now: u64,
    ) -> (r: Result<(), DisputeError>)
        requires
            old(self).wf(),
        ensures
            final(self).wf(),
            final(self).models_spec() == old(self).models_spec(),
            final(self).inferences_spec() == old(self).inferences_spec(),
            challenge_id >= old(self).challenges_spec().len() ==> r == Err::<(), DisputeError>(DisputeError::ProtocolViolation)
                && final(self).challenges_spec() == old(self).challenges_spec(),
            challenge_id < old(self).challenges_spec().len() ==> {
                let p = propose_spec(old(self).challenges_spec()[challenge_id as int], caller, input_hash, output_hash, now,
                    old(self).response_window_spec());
                r == p.0 && final(self).challenges_spec() == old(self).challenges_spec().update(challenge_id as int, p.1)
            },
    {
        if challenge_id >= self.challenges.len() {
            return Err(DisputeError::ProtocolViolation);
        }
        let w = self.response_window;
        let r = self.challenges[challenge_id].propose(caller, input_hash, output_hash, now, w);
        r
    }

    /// The responder answers the last proposal.
    pub fn respond_operator_execution(
        &mut self,
        challenge_id: usize,
        caller: u64,
        input_match: bool,
        output_match: bool,
        now: u64,
    ) -> (r: Result<(), DisputeError>)
        requires
            old(self).wf(),
        ensures
            final(self).wf(),
            final(self).models_spec() == old(self).models_spec(),
            final(self).inferences_spec() == old(self).inferences_spec(),
            challenge_id >= old(self).challenges_spec().len() ==> r == Err::<(), DisputeError>(DisputeError::ProtocolViolation)
                && final(self).challenges_spec() == old(self).challenges_spec(),
            challenge_id < old(self).challenges_spec().len() ==> {
                let p = respond_spec(old(self).challenges_spec()[challenge_id as int], caller, input_match, output_match, now,
                    old(self).response_window_spec());
                r == p.0 && final(self).challenges_spec() == old(self).challenges_spec().update(challenge_id as int, p.1)
            },
    {
        if challenge_id >= self.challenges.len() {
            return Err(DisputeError::ProtocolViolation);
        }
        let w = self.response_window;
        let r = self.challenges[challenge_id].respond(caller, input_match, output_match, now, w);
        r
    }

    /// The challenger submits public values and the proof system's verdict
    /// on its proof; the challenge is resolved against the registered root.
    pub fn resolve_open_challenge(
        &mut self,
        challenge_id: usize,
        caller: u64,
        public_values: &Vec<u8>,
        proof_valid: bool,
        now: u64,
    ) -> (r: Result<Party, DisputeError>)
        requires
            old(self).wf(),
        ensures
            final(self).wf(),
            final(self).models_spec() == old(self).models_spec(),
            final(self).inferences_spec() == old(self).inferences_spec(),
            challenge_id >= old(self).challenges_spec().len() ==> r == Err::<Party, DisputeError>(DisputeError::ProtocolViolation)
                && final(self).challenges_spec() == old(self).challenges_spec(),
            challenge_id < old(self).challenges_spec().len() ==> {
                let p = resolve_spec(old(self).challenges_spec()[challenge_id as int], caller,
                    old(self).challenge_root(challenge_id as int), public_values@, proof_valid, now);
                r == p.0 && final(self).challenges_spec() == old(self).challenges_spec().update(challenge_id as int, p.1)
            },
    {
        if challenge_id >= self.challenges.len() {
            return Err(DisputeError::ProtocolViolation);
        }
        let inf_id = self.challenges[challenge_id].inference_id;
        let model_id = self.inferences[inf_id].model_id;
        let root = self.models[model_id].root.clone();
        assert(root@ =~= old(self).challenge_root(challenge_id as int));
        let r = self.challenges[challenge_id].resolve(caller, &root, public_values, proof_valid, now);
        r
    }

    /// Ends a challenge whose deadline has passed; the waiting party wins.
    pub fn expire_challenge(&mut self, challenge_id: usize, now: u64) -> (r: Result<Party, DisputeError>)
        requires
            old(self).wf(),
        ensures
            final(self).wf(),
            final(self).models_spec() == old(self).models_spec(),
            final(self).inferences_spec() == old(self).inferences_spec(),
            challenge_id >= old(self).challenges_spec().len() ==> r == Err::<Party, DisputeError>(DisputeError::ProtocolViolation)
                && final(self).challenges_spec() == old(self).challenges_spec(),
            challenge_id < old(self).challenges_spec().len() ==> {
                let p = expire_spec(old(self).challenges_spec()[challenge_id as int], now);
                r == p.0 && final(self).challenges_spec() == old(self).challenges_spec().update(challenge_id as int, p.1)
            },
    {
        if challenge_id >= self.challenges.len() {
            return Err(DisputeError::ProtocolViolation);
        }
        let r = self.challenges[challenge_id].expire(now);
        r
    }
}

} // verus!
