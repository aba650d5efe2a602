use zkopml::cli::{operators_to_prove, Cli, ProveArgs, SP1Prover, SubmitArgs};
use zkopml::merkle::ModelMerkleTree;
use zkopml::node::{node_hash, encode_node, Graph, Node};
use zkopml::operator_proof::{committed_output_hash, hash_list_hash, prepare_operator, strip_sentinel, OperatorProofError};
use zkopml::tensor::{tensor_hash, ElemType, Tensor};
use zkopml::tensor_map::TensorMap;
use zkopml::trace::TraceRecorder;

fn t(values: &[f32]) -> Tensor {
    let bits: Vec<u64> = values.iter().map(|v| v.to_bits() as u64).collect();
    Tensor::new(ElemType::F32, vec![values.len() as u64], bits).unwrap()
}

fn map_of(entries: &[(&str, &[f32])]) -> TensorMap {
    let mut m = TensorMap::new();
    for (k, v) in entries {
        m.insert(k.to_string(), t(v));
    }
    m
}

/// Runs a chain of four element-wise "double" operators over `x`.
fn record(keep: bool) -> (TraceRecorder, TensorMap) {
    let inputs = map_of(&[("x", &[1.0, 2.0, 3.0])]);
    let initial = inputs.duplicate();
    let mut rec = TraceRecorder::new(inputs, &TensorMap::new(), keep);
    let mut cur = vec![1.0f32, 2.0, 3.0];
    for i in 0..4 {
        cur = cur.iter().map(|v| v * 2.0).collect();
        let mut after = rec.state().duplicate();
        after.insert(format!("y{}", i), t(&cur));
        rec.record_step(after);
    }
    (rec, initial)
}

#[test]
fn honest_trace_of_four_operators() {
    let (rec, initial) = record(false);
    let trace = rec.trace();
    assert_eq!(trace.len(), 4);
    assert_eq!(trace[0].0, initial.map_hash());
    assert_eq!(trace[3].1, rec.state().map_hash());
    for i in 0..3 {
        assert_eq!(trace[i].1, trace[i + 1].0);
    }
    assert_eq!(rec.failure().at, 4);
    assert!(rec.snapshot(0).is_none());
}

#[test]
fn two_honest_recorders_agree() {
    let (a, _) = record(true);
    let (b, _) = record(false);
    assert_eq!(a.trace(), b.trace());
    assert_eq!(a.snapshot(2).unwrap().map_hash(), a.trace()[2].0);
    assert!(a.snapshot(4).is_none());
}

#[test]
fn initializers_are_bound_before_first_operator() {
    let inits = map_of(&[("w", &[0.5]), ("x", &[9.0])]);
    let rec = TraceRecorder::new(map_of(&[("x", &[1.0])]), &inits, false);
    let s = rec.state();
    assert_eq!(s.len(), 2);
    assert_eq!(s.get(&"x".to_string()).unwrap().data()[0], 9.0f32.to_bits() as u64);
}

#[test]
fn sentinel_is_stripped() {
    assert_eq!(strip_sentinel(&"wgraph_initializer".to_string()), (true, "w".to_string()));
    assert_eq!(strip_sentinel(&"graph_initializer".to_string()), (true, "".to_string()));
    assert_eq!(strip_sentinel(&"w".to_string()), (false, "w".to_string()));
    assert_eq!(strip_sentinel(&"graph_initializerx".to_string()), (false, "graph_initializerx".to_string()));
}

struct Setup {
    tree: ModelMerkleTree,
    nodes: Vec<Node>,
    raw: TensorMap,
    hashes: Vec<(String, Vec<u8>)>,
}

fn setup() -> Setup {
    let w = t(&[0.5, 0.5]);
    let x = t(&[1.0, 2.0]);
    let mut inits = TensorMap::new();
    inits.insert("w".to_string(), w.duplicate());
    let nodes = vec![
        Node { op_type: "Relu".to_string(), inputs: vec!["in".to_string()], outputs: vec!["x".to_string()], attributes: vec![] },
        Node { op_type: "Mul".to_string(), inputs: vec!["x".to_string(), "w".to_string()], outputs: vec!["y".to_string()], attributes: vec![] },
    ];
    let g = Graph { nodes: nodes.clone(), initializers: inits, inputs: vec!["in".to_string()], outputs: vec!["y".to_string()] };
    let tree = ModelMerkleTree::new(&nodes, &g);
    let mut raw = TensorMap::new();
    raw.insert("x".to_string(), x.duplicate());
    raw.insert("wgraph_initializer".to_string(), w.duplicate());
    let hashes = vec![
        ("in".to_string(), tensor_hash(&t(&[7.0]))),
        ("w".to_string(), tensor_hash(&w)),
        ("x".to_string(), tensor_hash(&x)),
    ];
    Setup { tree, nodes, raw, hashes }
}

#[test]
fn operator_check_accepts_committed_inputs() {
    let s = setup();
    let proof = s.tree.prove(&vec![1]);
    let leaves = s.tree.leaves_hashes(&vec![1]);
    let p = prepare_operator(&s.tree.root(), &vec![1], &leaves, 2, &proof, &s.raw, &s.hashes, &s.nodes[1]).unwrap();
    assert_eq!(p.committed_input_hash, hash_list_hash(&s.hashes));
    assert_eq!(p.inputs.len(), 2);
    assert!(p.inputs.contains_key(&"w".to_string()));
    let mut after = p.inputs.duplicate();
    after.insert("y".to_string(), t(&[0.5, 1.0]));
    let out = committed_output_hash(&s.hashes, &after);
    let mut full = s.hashes.clone();
    full.push(("y".to_string(), tensor_hash(&t(&[0.5, 1.0]))));
    assert_eq!(out, hash_list_hash(&full));
    assert_ne!(out, p.committed_input_hash);
}

#[test]
fn operator_check_rejects_bad_inputs() {
    let s = setup();
    let proof = s.tree.prove(&vec![1]);
    let leaves = s.tree.leaves_hashes(&vec![1]);
    let root = s.tree.root();
    let mut bad_proof = proof.clone();
    bad_proof[3] ^= 0xff;
    let r = prepare_operator(&root, &vec![1], &leaves, 2, &bad_proof, &s.raw, &s.hashes, &s.nodes[1]);
    assert_eq!(r.err(), Some(OperatorProofError::MerkleProof));
    let mut tampered = s.hashes.clone();
    tampered[2].1 = vec![0; 32];
    let r = prepare_operator(&root, &vec![1], &leaves, 2, &proof, &s.raw, &tampered, &s.nodes[1]);
    assert_eq!(r.err(), Some(OperatorProofError::InputHash));
    let mut plain = TensorMap::new();
    plain.insert("x".to_string(), t(&[1.0, 2.0]));
    plain.insert("w".to_string(), t(&[0.5, 0.5]));
    let r = prepare_operator(&root, &vec![1], &leaves, 2, &proof, &plain, &s.hashes, &s.nodes[1]);
    assert_eq!(r.err(), Some(OperatorProofError::LeafHash));
    let r = prepare_operator(&root, &vec![1], &leaves, 2, &proof, &s.raw, &s.hashes, &s.nodes[0]);
    assert_eq!(r.err(), Some(OperatorProofError::LeafHash));
    assert_ne!(encode_node(&s.nodes[0]), encode_node(&s.nodes[1]));
}

#[test]
fn leaf_of_operator_with_weights() {
    let s = setup();
    let g = Graph { nodes: vec![], initializers: map_of(&[("w", &[0.5, 0.5])]), inputs: vec![], outputs: vec![] };
    assert_eq!(s.tree.leaves_hashes(&vec![1])[0], node_hash(&s.nodes[1], &g));
}

#[test]
fn verbosity_of_each_command() {
    let p = Cli::Prove(ProveArgs {
        v: 3,
        model_path: "m.onnx".to_string(),
        input_data_path: "in.json".to_string(),
        operator_index: None,
        sp1_prover: SP1Prover::Cpu,
    });
    assert_eq!(p.verbosity(), 3);
    let s = SubmitArgs {
        v: 1,
        eth_node_address: String::new(),
        model_registry_address: String::new(),
        fault_proof_address: String::new(),
        user_key: String::new(),
        model_id: 0,
        model_path: String::new(),
        operator_index: Some(2),
        defect: true,
    };
    assert_eq!(s.defect_index(7), Some(2));
    assert_eq!(SubmitArgs { operator_index: None, ..s.clone() }.defect_index(7), Some(7));
    assert_eq!(SubmitArgs { defect: false, ..s.clone() }.defect_index(7), None);
    assert_eq!(Cli::Submit(s).verbosity(), 1);
    assert_eq!(operators_to_prove(Some(4), 9), vec![4]);
    assert_eq!(operators_to_prove(None, 3), vec![0, 1, 2]);
}
