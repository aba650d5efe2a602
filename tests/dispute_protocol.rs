use sha2::Digest;
use zkopml::dispute::{ChallengeState, DisputeError, Party};
use zkopml::public_values::{encode_public_values, parse_public_values, PublicValues};
use zkopml::registry::FaultProof;

const RESPONDER: u64 = 10;
const CHALLENGER: u64 = 20;
const WINDOW: u64 = 100;

fn sha(b: &[u8]) -> Vec<u8> {
    sha2::Sha256::digest(b).to_vec()
}

fn pair(a: &[u8], b: &[u8]) -> Vec<u8> {
    let mut v = a.to_vec();
    v.extend_from_slice(b);
    sha(&v)
}

/// A registry with one model of `n` operators, one answered inference and
/// one open challenge; returns it with the challenge id.
fn setup(n: u64, root: Vec<u8>) -> (FaultProof, usize) {
    let mut fp = FaultProof::new(WINDOW, WINDOW);
    let m = fp.register_model("ipfs://model".to_string(), root, n, 1);
    let i = fp.request_inference(m, 2, b"{}".to_vec(), vec![0; 32]).unwrap();
    fp.respond_inference(i, RESPONDER, b"out".to_vec(), vec![1; 32], 1000).unwrap();
    let c = fp.create_challenge(i, CHALLENGER, 1010).unwrap();
    (fp, c)
}

#[test]
fn register_stores_root_and_count() {
    let (l0, l1, l2) = ([0xa1u8; 32], [0xb2u8; 32], [0xc3u8; 32]);
    let root = pair(&pair(&l0, &l1), &pair(&l2, &l2));
    let mut fp = FaultProof::new(WINDOW, WINDOW);
    let id = fp.register_model("ipfs://m".to_string(), root.clone(), 3, 7);
    assert_eq!(id, 0);
    let m = fp.model(0).unwrap();
    assert_eq!(m.root, root);
    assert_eq!(m.num_operators, 3);
    assert!(fp.model(1).is_none());
}

#[test]
fn request_and_response_rules() {
    let mut fp = FaultProof::new(WINDOW, WINDOW);
    assert_eq!(fp.request_inference(0, 2, vec![], vec![]), Err(DisputeError::ProtocolViolation));
    fp.register_model("u".to_string(), vec![0; 32], 2, 1);
    let i = fp.request_inference(0, 2, vec![1], vec![2]).unwrap();
    assert_eq!(fp.respond_inference(i, RESPONDER, vec![], vec![], 5), Ok(()));
    assert_eq!(fp.respond_inference(i, RESPONDER, vec![], vec![], 6), Err(DisputeError::ProtocolViolation));
    assert_eq!(fp.respond_inference(9, RESPONDER, vec![], vec![], 6), Err(DisputeError::ProtocolViolation));
    assert_eq!(fp.inference(i).unwrap().response.as_ref().unwrap().responded_at, 5);
}

#[test]
fn challenge_window_is_enforced() {
    let mut fp = FaultProof::new(WINDOW, WINDOW);
    fp.register_model("u".to_string(), vec![0; 32], 2, 1);
    let i = fp.request_inference(0, 2, vec![], vec![]).unwrap();
    assert_eq!(fp.create_challenge(i, CHALLENGER, 0), Err(DisputeError::ProtocolViolation));
    fp.respond_inference(i, RESPONDER, vec![], vec![], 1000).unwrap();
    assert_eq!(fp.create_challenge(i, CHALLENGER, 1101), Err(DisputeError::Timeout));
    let c = fp.create_challenge(i, CHALLENGER, 1100).unwrap();
    let ch = fp.challenge(c).unwrap();
    assert_eq!(ch.state, ChallengeState::AwaitingChallenger);
    assert_eq!((ch.low, ch.high), (0, 1));
    assert_eq!(ch.deadline, 1200);
}

#[test]
fn timeout_without_proposal_responder_wins() {
    let (mut fp, c) = setup(4, vec![0; 32]);
    assert_eq!(fp.expire_challenge(c, 1110), Err(DisputeError::ProtocolViolation));
    assert_eq!(fp.expire_challenge(c, 1111), Ok(Party::Responder));
    assert_eq!(fp.challenge(c).unwrap().state, ChallengeState::Resolved(Party::Responder));
    assert_eq!(fp.expire_challenge(c, 2000), Err(DisputeError::ProtocolViolation));
}

#[test]
fn silent_responder_loses() {
    let (mut fp, c) = setup(4, vec![0; 32]);
    fp.propose_operator_execution(c, CHALLENGER, vec![1], vec![2], 1050).unwrap();
    assert_eq!(fp.expire_challenge(c, 1151), Ok(Party::Challenger));
}

#[test]
fn turns_are_enforced() {
    let (mut fp, c) = setup(4, vec![0; 32]);
    assert_eq!(fp.respond_operator_execution(c, RESPONDER, true, true, 1020), Err(DisputeError::ProtocolViolation));
    assert_eq!(fp.propose_operator_execution(c, RESPONDER, vec![], vec![], 1020), Err(DisputeError::ProtocolViolation));
    assert_eq!(fp.propose_operator_execution(c, CHALLENGER, vec![], vec![], 1111), Err(DisputeError::Timeout));
    assert_eq!(fp.propose_operator_execution(7, CHALLENGER, vec![], vec![], 1020), Err(DisputeError::ProtocolViolation));
    fp.propose_operator_execution(c, CHALLENGER, vec![1], vec![2], 1020).unwrap();
    assert_eq!(fp.challenge(c).unwrap().state, ChallengeState::AwaitingResponder);
    assert_eq!(fp.propose_operator_execution(c, CHALLENGER, vec![1], vec![2], 1021), Err(DisputeError::ProtocolViolation));
    assert_eq!(fp.respond_operator_execution(c, CHALLENGER, true, true, 1021), Err(DisputeError::ProtocolViolation));
    assert_eq!(fp.resolve_open_challenge(c, CHALLENGER, &vec![], true, 1021), Err(DisputeError::ProtocolViolation));
}

#[test]
fn honest_against_honest_challenger_loses() {
    let (mut fp, c) = setup(4, vec![0; 32]);
    let mut t = 1020;
    loop {
        fp.propose_operator_execution(c, CHALLENGER, vec![1], vec![2], t).unwrap();
        fp.respond_operator_execution(c, RESPONDER, true, true, t + 1).unwrap();
        t += 2;
        if let ChallengeState::Resolved(w) = fp.challenge(c).unwrap().state {
            assert_eq!(w, Party::Responder);
            break;
        }
    }
    assert_eq!(t, 1026);
}

fn to_awaiting_proof(fp: &mut FaultProof, c: usize, h_in: &[u8], h_out: &[u8]) {
    fp.propose_operator_execution(c, CHALLENGER, h_in.to_vec(), h_out.to_vec(), 1020).unwrap();
    assert_eq!(fp.challenge(c).unwrap().mid(), 2);
    fp.respond_operator_execution(c, RESPONDER, true, false, 1030).unwrap();
    assert_eq!(fp.challenge(c).unwrap().state, ChallengeState::AwaitingProof);
}

#[test]
fn one_operator_divergence_challenger_wins() {
    let root = vec![5u8; 32];
    let (mut fp, c) = setup(5, root.clone());
    let (h_in, h_out) = (vec![3u8; 32], vec![4u8; 32]);
    to_awaiting_proof(&mut fp, c, &h_in, &h_out);
    let pv = PublicValues { model_root: root, index: 2, input_hash: h_in, output_hash: h_out };
    let bytes = encode_public_values(&pv);
    assert_eq!(bytes.len(), 108);
    assert_eq!(fp.resolve_open_challenge(c, CHALLENGER, &bytes, true, 1040), Ok(Party::Challenger));
    assert_eq!(fp.challenge(c).unwrap().state, ChallengeState::Resolved(Party::Challenger));
}

#[test]
fn wrong_model_root_responder_wins() {
    let root = vec![5u8; 32];
    let (mut fp, c) = setup(5, root);
    let (h_in, h_out) = (vec![3u8; 32], vec![4u8; 32]);
    to_awaiting_proof(&mut fp, c, &h_in, &h_out);
    let pv = PublicValues { model_root: vec![6u8; 32], index: 2, input_hash: h_in, output_hash: h_out };
    assert_eq!(fp.resolve_open_challenge(c, CHALLENGER, &encode_public_values(&pv), true, 1040), Ok(Party::Responder));
}

#[test]
fn rejected_proof_or_wrong_claim_responder_wins() {
    let root = vec![5u8; 32];
    let (h_in, h_out) = (vec![3u8; 32], vec![4u8; 32]);
    let good = PublicValues { model_root: root.clone(), index: 2, input_hash: h_in.clone(), output_hash: h_out.clone() };
    let cases = vec![
        (encode_public_values(&good), false),
        (encode_public_values(&PublicValues { index: 1, ..good.clone() }), true),
        (encode_public_values(&PublicValues { input_hash: vec![9; 32], ..good.clone() }), true),
        (encode_public_values(&PublicValues { output_hash: vec![9; 32], ..good.clone() }), true),
        (vec![0u8; 10], true),
    ];
    for (bytes, valid) in cases {
        let (mut fp, c) = setup(5, root.clone());
        to_awaiting_proof(&mut fp, c, &h_in, &h_out);
        assert_eq!(fp.resolve_open_challenge(c, CHALLENGER, &bytes, valid, 1040), Ok(Party::Responder));
    }
    let (mut fp, c) = setup(5, root.clone());
    to_awaiting_proof(&mut fp, c, &h_in, &h_out);
    assert_eq!(
        fp.resolve_open_challenge(c, CHALLENGER, &encode_public_values(&good), true, 1131),
        Err(DisputeError::Timeout)
    );
    assert_eq!(fp.expire_challenge(c, 1131), Ok(Party::Responder));
}

#[test]
fn single_operator_model_goes_to_proof() {
    let (mut fp, c) = setup(1, vec![0; 32]);
    assert_eq!(fp.challenge(c).unwrap().mid(), 0);
    fp.propose_operator_execution(c, CHALLENGER, vec![1], vec![2], 1020).unwrap();
    fp.respond_operator_execution(c, RESPONDER, true, false, 1021).unwrap();
    assert_eq!(fp.challenge(c).unwrap().state, ChallengeState::AwaitingProof);
}

#[test]
fn public_values_layout_and_round_trip() {
    let pv = PublicValues { model_root: vec![1; 32], index: 0x0102, input_hash: vec![2; 32], output_hash: vec![3; 32] };
    let b = encode_public_values(&pv);
    assert_eq!(&b[32..36], &[1, 0, 0, 0]);
    assert_eq!(&b[36..44], &[0x02, 0x01, 0, 0, 0, 0, 0, 0]);
    let back = parse_public_values(&b).unwrap();
    assert_eq!(back.model_root, pv.model_root);
    assert_eq!(back.index, 0x0102);
    assert_eq!(back.input_hash, pv.input_hash);
    assert_eq!(back.output_hash, pv.output_hash);
    let mut two = b.clone();
    two[32] = 2;
    assert!(parse_public_values(&two).is_none());
    assert!(parse_public_values(&b[..107].to_vec()).is_none());
}
