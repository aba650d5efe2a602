use sha2::Digest;
use zkopml::digest::hash_buffer;
use zkopml::keyed::encode_entries;
use zkopml::node::{encode_node, node_hash, AttrValue, Attribute, Graph, Node};
use zkopml::tensor::{tensor_hash, ElemType, Tensor};
use zkopml::tensor_map::TensorMap;

fn sha(b: &[u8]) -> Vec<u8> {
    sha2::Sha256::digest(b).to_vec()
}

fn round3(x: f32) -> f32 {
    (x * 1000.0).round() / 1000.0
}

fn f32_tensor(shape: Vec<u64>, values: &[f32]) -> Tensor {
    let bits: Vec<u64> = values.iter().map(|v| round3(*v).to_bits() as u64).collect();
    Tensor::new(ElemType::F32, shape, bits).unwrap()
}

fn node(op: &str, inputs: &[&str], outputs: &[&str]) -> Node {
    Node {
        op_type: op.to_string(),
        inputs: inputs.iter().map(|s| s.to_string()).collect(),
        outputs: outputs.iter().map(|s| s.to_string()).collect(),
        attributes: vec![],
    }
}

#[test]
fn hash_buffer_is_sha256() {
    assert_eq!(hash_buffer(b"abc"), sha(b"abc"));
    assert_eq!(hash_buffer(b"abc").len(), 32);
    assert_ne!(hash_buffer(b"abc"), b"abc".to_vec());
}

#[test]
fn tensor_new_rejects_invalid_parts() {
    assert!(Tensor::new(ElemType::F32, vec![2, 2], vec![0, 0, 0, 0]).is_some());
    assert!(Tensor::new(ElemType::F32, vec![2, 2], vec![0, 0, 0]).is_none());
    assert!(Tensor::new(ElemType::F32, vec![0], vec![]).is_none());
    assert!(Tensor::new(ElemType::F32, vec![1], vec![1u64 << 40]).is_none());
    assert!(Tensor::new(ElemType::F64, vec![1], vec![1u64 << 40]).is_some());
    assert!(Tensor::new(ElemType::F64, vec![u64::MAX, 4], vec![]).is_none());
    assert!(Tensor::new(ElemType::F64, vec![], vec![7]).is_some());
}

#[test]
fn tensor_encoding_is_exact() {
    let t = f32_tensor(vec![3], &[1.0, 2.0, 3.0]);
    let expected: Vec<u8> = vec![
        1, 0, 0, 0, 1, 0, 0, 0, 0, 0, 0, 0, 3, 0x00, 0x00, 0x80, 0x3f, 0x00, 0x00, 0x00, 0x40, 0x00,
        0x00, 0x40, 0x40,
    ];
    assert_eq!(t.encode(), expected);
    assert_eq!(tensor_hash(&t), sha(&expected));
    let d = Tensor::new(ElemType::F64, vec![1], vec![2.5f64.to_bits()]).unwrap();
    let mut e = vec![2, 0, 0, 0, 1, 0, 0, 0, 0, 0, 0, 0, 1];
    e.extend_from_slice(&2.5f64.to_le_bytes());
    assert_eq!(d.encode(), e);
}

#[test]
fn tensor_hash_stable_under_rounding() {
    let a = f32_tensor(vec![2], &[0.1234, 5.0001]);
    let b = f32_tensor(vec![2], &[0.1231, 4.9999]);
    assert_eq!(tensor_hash(&a), tensor_hash(&b));
    let c = f32_tensor(vec![2], &[0.124, 5.0]);
    assert_ne!(tensor_hash(&a), tensor_hash(&c));
    let reshaped = f32_tensor(vec![1, 2], &[0.1234, 5.0001]);
    assert_ne!(tensor_hash(&a), tensor_hash(&reshaped));
}

#[test]
fn map_hash_ignores_insertion_order() {
    let x = f32_tensor(vec![1], &[1.0]);
    let y = f32_tensor(vec![1], &[2.0]);
    let z = f32_tensor(vec![2], &[3.0, 4.0]);
    let mut m1 = TensorMap::new();
    m1.insert("x".to_string(), x.duplicate());
    m1.insert("y".to_string(), y.duplicate());
    m1.insert("z".to_string(), z.duplicate());
    let mut m2 = TensorMap::new();
    m2.insert("z".to_string(), z.duplicate());
    m2.insert("x".to_string(), x.duplicate());
    m2.insert("y".to_string(), y.duplicate());
    assert_eq!(m1.map_hash(), m2.map_hash());
    let mut m3 = TensorMap::new();
    m3.insert("x".to_string(), y.duplicate());
    m3.insert("y".to_string(), x.duplicate());
    m3.insert("z".to_string(), z.duplicate());
    assert_ne!(m1.map_hash(), m3.map_hash());
}

#[test]
fn map_hash_encodes_sorted_entries() {
    let x = f32_tensor(vec![1], &[1.0]);
    let mut m = TensorMap::new();
    m.insert("b".to_string(), x.duplicate());
    m.insert("a".to_string(), x.duplicate());
    let h = tensor_hash(&x);
    let mut expected = vec![0, 0, 0, 0, 0, 0, 0, 2];
    for name in ["a", "b"] {
        expected.extend_from_slice(&[0, 0, 0, 0, 0, 0, 0, 1]);
        expected.extend_from_slice(name.as_bytes());
        expected.extend_from_slice(&[0, 0, 0, 0, 0, 0, 0, 32]);
        expected.extend_from_slice(&h);
    }
    let list = m.hashes();
    assert_eq!(list[0].0, "a");
    assert_eq!(list[1].0, "b");
    assert_eq!(encode_entries(&list), expected);
    assert_eq!(m.map_hash(), sha(&expected));
}

#[test]
fn tensor_map_insert_replaces() {
    let mut m = TensorMap::new();
    m.insert("x".to_string(), f32_tensor(vec![1], &[1.0]));
    m.insert("x".to_string(), f32_tensor(vec![1], &[2.0]));
    assert_eq!(m.len(), 1);
    assert!(m.contains_key(&"x".to_string()));
    assert!(!m.contains_key(&"y".to_string()));
    let t = m.get(&"x".to_string()).unwrap();
    assert_eq!(t.data()[0], 2.0f32.to_bits() as u64);
}

#[test]
fn node_encoding_sorts_attributes() {
    let mut a = node("Conv", &["x", "w"], &["y"]);
    a.attributes = vec![
        Attribute { name: "strides".to_string(), value: AttrValue::Ints(vec![1, 1]) },
        Attribute { name: "group".to_string(), value: AttrValue::Int(1) },
    ];
    let mut b = a.clone();
    b.attributes.reverse();
    assert_eq!(encode_node(&a), encode_node(&b));
    let enc = encode_node(&node("Relu", &[], &[]));
    let mut expected = vec![0, 0, 0, 0, 0, 0, 0, 4];
    expected.extend_from_slice(b"Relu");
    expected.extend_from_slice(&[0; 8]);
    expected.extend_from_slice(&[0; 8]);
    expected.extend_from_slice(&[0; 8]);
    assert_eq!(enc, expected);
}

#[test]
fn node_hash_commits_to_bound_weights() {
    let w = f32_tensor(vec![2], &[0.5, 0.25]);
    let b = f32_tensor(vec![1], &[1.0]);
    let mut inits = TensorMap::new();
    inits.insert("w".to_string(), w.duplicate());
    inits.insert("b".to_string(), b.duplicate());
    let g = Graph { nodes: vec![], initializers: inits, inputs: vec!["x".to_string()], outputs: vec![] };
    let n = node("Gemm", &["x", "w", "b", "w"], &["y"]);
    let mut buf = encode_node(&n);
    buf.extend_from_slice(&tensor_hash(&b));
    buf.extend_from_slice(&tensor_hash(&w));
    assert_eq!(node_hash(&n, &g), sha(&buf));
    let plain = node("Relu", &["x"], &["y"]);
    assert_eq!(node_hash(&plain, &g), sha(&encode_node(&plain)));
}

#[test]
fn node_hash_weights_independent_of_input_order() {
    let w = f32_tensor(vec![1], &[0.5]);
    let b = f32_tensor(vec![1], &[1.0]);
    let mut inits = TensorMap::new();
    inits.insert("w".to_string(), w.duplicate());
    inits.insert("b".to_string(), b.duplicate());
    let g = Graph { nodes: vec![], initializers: inits, inputs: vec![], outputs: vec![] };
    let n1 = node("Gemm", &["x", "w", "b"], &["y"]);
    let n2 = node("Gemm", &["b", "x", "w"], &["y"]);
    let suffix = |n: &Node| {
        let full = node_hash(n, &g);
        let mut buf = encode_node(n);
        buf.extend_from_slice(&tensor_hash(&b));
        buf.extend_from_slice(&tensor_hash(&w));
        assert_eq!(full, sha(&buf));
    };
    suffix(&n1);
    suffix(&n2);
}
