use sha2::Digest;
use zkopml::merkle::{verify, ModelMerkleTree};
use zkopml::node::{node_hash, Graph, Model, Node};
use zkopml::tensor_map::TensorMap;

fn sha(b: &[u8]) -> Vec<u8> {
    sha2::Sha256::digest(b).to_vec()
}

fn pair(a: &[u8], b: &[u8]) -> Vec<u8> {
    let mut v = a.to_vec();
    v.extend_from_slice(b);
    sha(&v)
}

fn leaf(tag: u8) -> Vec<u8> {
    let mut v = vec![tag; 8];
    v.extend_from_slice(&[0u8; 24]);
    v
}

#[test]
fn three_leaf_root_duplicates_last() {
    let (l0, l1, l2) = (leaf(0xa1), leaf(0xb2), leaf(0xc3));
    let t = ModelMerkleTree::from_leaves(vec![l0.clone(), l1.clone(), l2.clone()]);
    let expected = pair(&pair(&l0, &l1), &pair(&l2, &l2));
    assert_eq!(t.root(), expected);
    assert_eq!(t.total_leaves(), 3);
    assert_eq!(t.leaves_hashes(&vec![2, 0]), vec![l2.clone(), l0.clone()]);
}

#[test]
fn five_leaves_pad_to_eight() {
    let ls: Vec<Vec<u8>> = (0..5u8).map(leaf).collect();
    let t = ModelMerkleTree::from_leaves(ls.clone());
    let a = pair(&pair(&ls[0], &ls[1]), &pair(&ls[2], &ls[3]));
    let b = pair(&pair(&ls[4], &ls[4]), &pair(&ls[4], &ls[4]));
    assert_eq!(t.root(), pair(&a, &b));
}

#[test]
fn single_leaf_root_is_leaf() {
    let t = ModelMerkleTree::from_leaves(vec![leaf(7)]);
    assert_eq!(t.root(), leaf(7));
    let p = t.prove(&vec![0]);
    assert!(p.is_empty());
    assert!(verify(&t.root(), &vec![0], &vec![leaf(7)], 1, &p));
}

#[test]
fn proof_layout_is_siblings_bottom_up() {
    let (l0, l1, l2) = (leaf(1), leaf(2), leaf(3));
    let t = ModelMerkleTree::from_leaves(vec![l0.clone(), l1.clone(), l2.clone()]);
    let p = t.prove(&vec![2]);
    let mut expected = l2.clone();
    expected.extend_from_slice(&pair(&l0, &l1));
    assert_eq!(p, expected);
}

#[test]
fn proofs_verify_and_reject_tampering() {
    let ls: Vec<Vec<u8>> = (0..6u8).map(leaf).collect();
    let t = ModelMerkleTree::from_leaves(ls.clone());
    let root = t.root();
    for i in 0..6usize {
        let p = t.prove(&vec![i]);
        assert!(verify(&root, &vec![i], &vec![ls[i].clone()], 6, &p));
        assert!(!verify(&root, &vec![i], &vec![leaf(99)], 6, &p));
        let mut bad = p.clone();
        bad[0] ^= 1;
        assert!(!verify(&root, &vec![i], &vec![ls[i].clone()], 6, &bad));
    }
    let p = t.prove(&vec![1]);
    assert!(!verify(&root, &vec![6], &vec![ls[1].clone()], 6, &p));
    assert!(!verify(&root, &vec![1], &vec![ls[1].clone()], 6, &p[..64].to_vec()));
    assert!(!verify(&root, &vec![1, 2], &vec![ls[1].clone()], 6, &p));
    assert!(!verify(&root, &vec![1], &vec![], 6, &p));
    assert!(!verify(&root, &vec![1], &vec![ls[1].clone()], 0, &p));
}

#[test]
fn tree_from_graph_uses_operator_leaves() {
    let nodes = vec![
        Node { op_type: "Relu".to_string(), inputs: vec!["x".to_string()], outputs: vec!["a".to_string()], attributes: vec![] },
        Node { op_type: "Neg".to_string(), inputs: vec!["a".to_string()], outputs: vec!["b".to_string()], attributes: vec![] },
    ];
    let g = Graph { nodes: nodes.clone(), initializers: TensorMap::new(), inputs: vec![], outputs: vec![] };
    let t = ModelMerkleTree::new(&nodes, &g);
    assert_eq!(t.root(), pair(&node_hash(&nodes[0], &g), &node_hash(&nodes[1], &g)));
}

#[test]
fn model_exposes_graph_nodes() {
    let n = Node { op_type: "Relu".to_string(), inputs: vec![], outputs: vec![], attributes: vec![] };
    let m = Model { graph: Some(Graph { nodes: vec![n], initializers: TensorMap::new(), inputs: vec![], outputs: vec![] }) };
    assert_eq!(m.num_operators(), 1);
    assert_eq!(m.get_node(0).unwrap().op_type, "Relu");
    assert!(m.get_node(1).is_none());
    assert!(m.graph().is_some());
    assert!(Model { graph: None }.graph().is_none());
}

#[test]
fn root_hash_is_lower_hex() {
    let t = ModelMerkleTree::from_leaves(vec![vec![0xab; 32]]);
    assert_eq!(t.root_hash(), "ab".repeat(32));
    let t2 = ModelMerkleTree::from_leaves(vec![(0..32u8).collect()]);
    assert_eq!(&t2.root_hash()[..8], "00010203");
}
