//! Operators, graphs, the canonical encoding of an operator, and the leaf
//! hash that commits to an operator together with the weights bound to it.

use vstd::prelude::*;
use crate::bytes::{u32_be, u64_be, push_u32_be, push_u64_be, extend_bytes};
use crate::digest::{sha256, hash_buffer};
use crate::keyed::{name_bytes, name_bytes_of, entries_view, canonical, functional, pairs_map,
    sorted_entries, lemma_sorted_entries, sort_entries, list_bytes, encode_entries};
use crate::tensor::{TensorView, tensor_hash_spec, tensor_hash};
use crate::tensor_map::TensorMap;

verus! {

/// A typed attribute value. Floating-point values are held as their bits.
#[derive(Clone, Debug)]
pub enum AttrValue {
    Int(i64),
    Ints(Vec<i64>),
    Float(u32),
    Floats(Vec<u32>),
    Text(String),
}

/// A named attribute of an operator.
#[derive(Clone, Debug)]
pub struct Attribute {
    pub name: String,
    pub value: AttrValue,
}

/// One operator of a model graph.
#[derive(Clone, Debug)]
pub struct Node {
    pub op_type: String,
    pub inputs: Vec<String>,
    pub outputs: Vec<String>,
    pub attributes: Vec<Attribute>,
}

/// A model: operators in topological order, the named constant tensors
/// (weights), and the declared graph inputs and outputs.
#[derive(Debug)]
pub struct Graph {
    pub nodes: Vec<Node>,
    pub initializers: TensorMap,
    pub inputs: Vec<String>,
    pub outputs: Vec<String>,
}

/// A loaded model: its graph, if the model file had one.
#[derive(Debug)]
pub struct Model {
    pub graph: Option<Graph>,
}

impl Model {
    /// The graph.
    pub fn graph(&self) -> (r: Option<&Graph>)
        ensures
            r == match &self.graph {
                Some(g) => Some(g),
                None => None::<&Graph>,
            },
    {
        match &self.graph {
            Some(g) => Some(g),
            None => None,
        }
    }

    /// The operator at `index`, if the graph has that many.
    pub fn get_node(&self, index: usize) -> (r: Option<&Node>)
        requires
            self.graph is Some,
        ensures
            r is Some <==> index < self.graph->0.nodes@.len(),
            r is Some ==> *r->0 == self.graph->0.nodes@[index as int],
    {
        match &self.graph {
            Some(g) => {
                if index < g.nodes.len() {
                    Some(&g.nodes[index])
                } else {
                    None
                }
            },
            None => None,
        }
    }

    /// The number of operators.
    pub fn num_operators(&self) -> (r: usize)
        requires
            self.graph is Some,
        ensures
            r == self.graph->0.nodes@.len(),
    {
        match &self.graph {
            Some(g) => g.nodes.len(),
            None => 0,
        }
    }
}

/// A string on the wire: its byte length (8 bytes big-endian), then its bytes.
pub open spec fn str_bytes(s: Seq<char>) -> Seq<u8> {
    u64_be(name_bytes(s).len() as u64) + name_bytes(s)
}

/// Strings one after another.
pub open spec fn strs_concat(ss: Seq<String>) -> Seq<u8>
    decreases ss.len(),
{
    if ss.len() == 0 {
        seq![]
    } else {
        strs_concat(ss.drop_last()) + str_bytes(ss.last()@)
    }
}

/// A list of strings on the wire: the count, then the strings in order.
pub open spec fn strs_bytes(ss: Seq<String>) -> Seq<u8> {
    u64_be(ss.len() as u64) + strs_concat(ss)
}

/// 64-bit integers, each 8 bytes big-endian (two's complement).
pub open spec fn ints_concat(xs: Seq<i64>) -> Seq<u8>
    decreases xs.len(),
{
    if xs.len() == 0 {
        seq![]
    } else {
        ints_concat(xs.drop_last()) + u64_be(xs.last() as u64)
    }
}

/// 32-bit patterns, each 4 bytes big-endian.
pub open spec fn words_concat(xs: Seq<u32>) -> Seq<u8>
    decreases xs.len(),
{
    if xs.len() == 0 {
        seq![]
    } else {
        words_concat(xs.drop_last()) + u32_be(xs.last())
    }
}

/// An attribute value on the wire: a one-byte kind tag, then the value.
pub open spec fn attr_value_bytes(v: AttrValue) -> Seq<u8> {
    match v {
        AttrValue::Int(x) => seq![1u8] + u64_be(x as u64),
        AttrValue::Ints(xs) => seq![2u8] + u64_be(xs@.len() as u64) + ints_concat(xs@),
        AttrValue::Float(x) => seq![3u8] + u32_be(x),
        AttrValue::Floats(xs) => seq![4u8] + u64_be(xs@.len() as u64) + words_concat(xs@),
        AttrValue::Text(s) => seq![5u8] + str_bytes(s@),
    }
}

/// The attributes as (name, encoded value) entries, in declared order.
pub open spec fn attr_entries(attrs: Seq<Attribute>) -> Seq<(Seq<u8>, Seq<u8>)> {
    attrs.map_values(|a: Attribute| (name_bytes(a.name@), attr_value_bytes(a.value)))
}

/// Attribute names are pairwise distinct.
pub open spec fn node_wf(n: Node) -> bool {
    forall|i: int, j: int|
        0 <= i < j < n.attributes@.len() ==> name_bytes(#[trigger] n.attributes@[i].name@)
            != name_bytes(#[trigger] n.attributes@[j].name@)
}

/// Canonical bytes of an operator: kind, input names and output names in
/// declared order, then the attributes in ascending name order.
pub open spec fn node_bytes(n: Node) -> Seq<u8> {
    str_bytes(n.op_type@) + strs_bytes(n.inputs@) + strs_bytes(n.outputs@) + list_bytes(
        sorted_entries(pairs_map(attr_entries(n.attributes@))),
    )
}

/// The weights bound to an operator: each input name that names an
/// initializer, mapped to that initializer's tensor hash.
pub open spec fn weights_map(n: Node, inits: Map<Seq<u8>, TensorView>) -> Map<Seq<u8>, Seq<u8>> {
    weights_of(n.inputs@, inits)
}

/// Each name of `ins` that names an initializer, mapped to its tensor hash.
pub open spec fn weights_of(ins: Seq<String>, inits: Map<Seq<u8>, TensorView>) -> Map<Seq<u8>, Seq<u8>> {
    Map::new(
        |k: Seq<u8>| inits.contains_key(k) && exists|i: int| 0 <= i < ins.len() && name_bytes(ins[i]@) == k,
        |k: Seq<u8>| tensor_hash_spec(inits[k]),
    )
}

/// The (name, tensor hash) entries of the inputs that name initializers,
/// in input order.
pub open spec fn bound_entries(ins: Seq<String>, inits: Map<Seq<u8>, TensorView>) -> Seq<(Seq<u8>, Seq<u8>)>
    decreases ins.len(),
{
    if ins.len() == 0 {
        seq![]
    } else {
        let rest = bound_entries(ins.drop_last(), inits);
        let k = name_bytes(ins.last()@);
        if inits.contains_key(k) {
            rest.push((k, tensor_hash_spec(inits[k])))
        } else {
            rest
        }
    }
}

proof fn lemma_bound_entries(ins: Seq<String>, inits: Map<Seq<u8>, TensorView>)
    ensures
        forall|a: int| 0 <= a < bound_entries(ins, inits).len() ==> {
            let e = #[trigger] bound_entries(ins, inits)[a];
            &&& inits.contains_key(e.0)
            &&& e.1 == tensor_hash_spec(inits[e.0])
            &&& exists|j: int| 0 <= j < ins.len() && name_bytes(ins[j]@) == e.0
        },
        forall|j: int| 0 <= j < ins.len() && inits.contains_key(name_bytes(#[trigger] ins[j]@)) ==>
            exists|a: int| 0 <= a < bound_entries(ins, inits).len() && bound_entries(ins, inits)[a].0 == name_bytes(ins[j]@),
    decreases ins.len(),
{
    if ins.len() > 0 {
        let pre = ins.drop_last();
        lemma_bound_entries(pre, inits);
        let rest = bound_entries(pre, inits);
        let be = bound_entries(ins, inits);
        assert forall|a: int| 0 <= a < be.len() implies {
            let e = #[trigger] be[a];
            &&& inits.contains_key(e.0)
            &&& e.1 == tensor_hash_spec(inits[e.0])
            &&& exists|j: int| 0 <= j < ins.len() && name_bytes(ins[j]@) == e.0
        } by {
            if a < rest.len() {
                assert(be[a] == rest[a]);
                let j = choose|j: int| 0 <= j < pre.len() && name_bytes(pre[j]@) == rest[a].0;
                assert(ins[j] == pre[j]);
            } else {
                assert(name_bytes(ins[ins.len() - 1]@) == be[a].0);
            }
        }
        assert forall|j: int| 0 <= j < ins.len() && inits.contains_key(name_bytes(#[trigger] ins[j]@)) implies
            exists|a: int| 0 <= a < be.len() && be[a].0 == name_bytes(ins[j]@) by {
            if j < pre.len() {
                assert(ins[j] == pre[j]);
                let a = choose|a: int| 0 <= a < rest.len() && rest[a].0 == name_bytes(pre[j]@);
                assert(be[a] == rest[a]);
            } else {
                assert(be[rest.len() as int].0 == name_bytes(ins[j]@));
            }
        }
    }
}

proof fn lemma_bound_entries_map(ins: Seq<String>, inits: Map<Seq<u8>, TensorView>)
    ensures
        functional(bound_entries(ins, inits)),
        pairs_map(bound_entries(ins, inits)) == weights_of(ins, inits),
{
    lemma_bound_entries(ins, inits);
    let ev = bound_entries(ins, inits);
    let wm = weights_of(ins, inits);
    assert forall|k: Seq<u8>| pairs_map(ev).contains_key(k) <==> #[trigger] wm.contains_key(k) by {
        if pairs_map(ev).contains_key(k) {
            let a = choose|a: int| 0 <= a < ev.len() && ev[a].0 == k;
            assert(inits.contains_key(ev[a].0));
        }
        if wm.contains_key(k) {
            let j = choose|j: int| 0 <= j < ins.len() && name_bytes(ins[j]@) == k;
            assert(inits.contains_key(name_bytes(ins[j]@)));
        }
    }
    assert forall|k: Seq<u8>| pairs_map(ev).contains_key(k) implies pairs_map(ev)[k] == #[trigger] wm[k] by {
        let a = choose|a: int| 0 <= a < ev.len() && ev[a].0 == k;
        assert(inits.contains_key(ev[a].0));
    }
    assert(pairs_map(ev) =~= wm);
    assert forall|a: int, b: int| 0 <= a < ev.len() && 0 <= b < ev.len() && #[trigger] ev[a].0 == #[trigger] ev[b].0
        implies ev[a].1 == ev[b].1 by {
        assert(inits.contains_key(ev[a].0));
        assert(inits.contains_key(ev[b].0));
    }
}

/// The payloads of a list of entries, one after another.
pub open spec fn payloads_concat(s: Seq<(Seq<u8>, Seq<u8>)>) -> Seq<u8>
    decreases s.len(),
{
    if s.len() == 0 {
        seq![]
    } else {
        payloads_concat(s.drop_last()) + s.last().1
    }
}

/// The operator leaf hash: SHA-256 of the operator's canonical bytes followed
/// by the tensor hashes of its bound weights in ascending name order.
pub open spec fn node_hash_spec(n: Node, inits: Map<Seq<u8>, TensorView>) -> Seq<u8> {
    sha256(node_bytes(n) + payloads_concat(sorted_entries(weights_map(n, inits))))
}

impl Node {
    pub open spec fn wf(&self) -> bool {
        node_wf(*self)
    }
}

impl Graph {
    pub open spec fn wf(&self) -> bool {
        &&& self.initializers.wf()
        &&& forall|i: int| 0 <= i < self.nodes@.len() ==> node_wf(#[trigger] self.nodes@[i])
    }
}

fn push_str(out: &mut Vec<u8>, s: &String)
    ensures
        final(out)@ == old(out)@ + str_bytes(s@),
{
    let b = name_bytes_of(s);
    push_u64_be(out, b.len() as u64);
    extend_bytes(out, b);
}

fn push_strs(out: &mut Vec<u8>, ss: &Vec<String>)
    ensures
        final(out)@ == old(out)@ + strs_bytes(ss@),
{
    let ghost start = out@;
    push_u64_be(out, ss.len() as u64);
    let ghost head = out@;
    let mut i: usize = 0;
    while i < ss.len()
        invariant
            i <= ss@.len(),
            head == start + u64_be(ss@.len() as u64),
            out@ == head + strs_concat(ss@.subrange(0, i as int)),
        decreases ss@.len() - i,
    {
        assert(ss@.subrange(0, i + 1).drop_last() =~= ss@.subrange(0, i as int));
        push_str(out, &ss[i]);
        i = i + 1;
        assert(out@ =~= head + strs_concat(ss@.subrange(0, i as int)));
    }
    assert(ss@.subrange(0, i as int) =~= ss@);
    assert(out@ =~= start + strs_bytes(ss@));
}

fn encode_attr_value(v: &AttrValue) -> (r: Vec<u8>)
    ensures
        r@ == attr_value_bytes(*v),
{
    let mut out: Vec<u8> = Vec::new();
    match v {
        AttrValue::Int(x) => {
            out.push(1u8);
            push_u64_be(&mut out, *x as u64);
        },
        AttrValue::Ints(xs) => {
            out.push(2u8);
            push_u64_be(&mut out, xs.len() as u64);
            let ghost head = out@;
            let mut i: usize = 0;
            while i < xs.len()
                invariant
                    i <= xs@.len(),
                    out@ == head + ints_concat(xs@.subrange(0, i as int)),
                decreases xs@.len() - i,
            {
                assert(xs@.subrange(0, i + 1).drop_last() =~= xs@.subrange(0, i as int));
                push_u64_be(&mut out, xs[i] as u64);
                i = i + 1;
                assert(out@ =~= head + ints_concat(xs@.subrange(0, i as int)));
            }
            assert(xs@.subrange(0, i as int) =~= xs@);
        },
        AttrValue::Float(x) => {
            out.push(3u8);
            push_u32_be(&mut out, *x);
        },
        AttrValue::Floats(xs) => {
            out.push(4u8);
            push_u64_be(&mut out, xs.len() as u64);
            let ghost head = out@;
            let mut i: usize = 0;
            while i < xs.len()
                invariant
                    i <= xs@.len(),
                    out@ == head + words_concat(xs@.subrange(0, i as int)),
                decreases xs@.len() - i,
            {
                assert(xs@.subrange(0, i + 1).drop_last() =~= xs@.subrange(0, i as int));
                push_u32_be(&mut out, xs[i]);
                i = i + 1;
                assert(out@ =~= head + words_concat(xs@.subrange(0, i as int)));
            }
            assert(xs@.subrange(0, i as int) =~= xs@);
        },
        AttrValue::Text(s) => {
            out.push(5u8);
            push_str(&mut out, s);
        },
    }
    assert(out@ =~= attr_value_bytes(*v));
    out
}

/// The canonical bytes of an operator.
pub fn encode_node(node: &Node) -> (r: Vec<u8>)
    requires
        node.wf(),
    ensures
        r@ == node_bytes(*node),
{
    let mut out: Vec<u8> = Vec::new();
    push_str(&mut out, &node.op_type);
    push_strs(&mut out, &node.inputs);
    push_strs(&mut out, &node.outputs);
    let mut attrs: Vec<(String, Vec<u8>)> = Vec::new();
    let ghost target = attr_entries(node.attributes@);
    let mut i: usize = 0;
    while i < node.attributes.len()
        invariant
            i <= node.attributes@.len(),
            target == attr_entries(node.attributes@),
            entries_view(attrs@) =~= target.subrange(0, i as int),
        decreases node.attributes@.len() - i,
    {
        let name = node.attributes[i].name.clone();
        let value = encode_attr_value(&node.attributes[i].value);
        let ghost prev = attrs@;
        attrs.push((name, value));
        proof {
            assert(entries_view(attrs@) =~= entries_view(prev).push((name_bytes(name@), value@)));
            assert(target.subrange(0, i + 1) =~= target.subrange(0, i as int).push(target[i as int]));
        }
        i = i + 1;
    }
    proof {
        assert(entries_view(attrs@) =~= target);
        assert(functional(target)) by {
            assert forall|a: int, b: int| 0 <= a < target.len() && 0 <= b < target.len()
                && #[trigger] target[a].0 == #[trigger] target[b].0 implies target[a].1 == target[b].1 by {
                if a < b {
                    assert(name_bytes(node.attributes@[a].name@) != name_bytes(node.attributes@[b].name@));
                } else if b < a {
                    assert(name_bytes(node.attributes@[b].name@) != name_bytes(node.attributes@[a].name@));
                }
            }
        }
    }
    let sorted = sort_entries(&attrs);
    proof {
        lemma_sorted_entries(entries_view(sorted@), pairs_map(target));
    }
    let tail = encode_entries(&sorted);
    let ghost pre = out@;
    extend_bytes(&mut out, tail.as_slice());
    assert(out@ =~= node_bytes(*node));
    out
}

/// The operator leaf hash of `node` in `graph`. An input name that names an
/// initializer contributes that initializer's tensor hash, once, in
/// ascending name order; other inputs contribute nothing.
pub fn node_hash(node: &Node, graph: &Graph) -> (r: Vec<u8>)
    requires
        node.wf(),
        graph.initializers.wf(),
    ensures
        r@ == node_hash_spec(*node, graph.initializers.view()),
        r@.len() == 32,
{
    let inits = &graph.initializers;
    let ghost iv = inits.view();
    let mut bound: Vec<(String, Vec<u8>)> = Vec::new();
    let mut i: usize = 0;
    while i < node.inputs.len()
        invariant
            inits.wf(),
            iv == inits.view(),
            i <= node.inputs@.len(),
            entries_view(bound@) == bound_entries(node.inputs@.subrange(0, i as int), iv),
        decreases node.inputs@.len() - i,
    {
        let ghost prev = bound@;
        assert(node.inputs@.subrange(0, i + 1).drop_last() =~= node.inputs@.subrange(0, i as int));
        match inits.get(&node.inputs[i]) {
            Some(t) => {
                let h = tensor_hash(t);
                let name = node.inputs[i].clone();
                bound.push((name, h));
                assert(entries_view(bound@) =~= entries_view(prev).push((name_bytes(name@), h@)));
            },
            None => {},
        }
        i = i + 1;
    }
    assert(node.inputs@.subrange(0, i as int) =~= node.inputs@);
    let ghost ev = entries_view(bound@);
    let ghost wm = weights_map(*node, iv);
    proof {
        lemma_bound_entries_map(node.inputs@, iv);
    }
    let sorted = sort_entries(&bound);
    proof {
        lemma_sorted_entries(entries_view(sorted@), wm);
    }
    let mut buffer = encode_node(node);
    let ghost head = buffer@;
    let ghost sv = entries_view(sorted@);
    let mut k: usize = 0;
    while k < sorted.len()
        invariant
            k <= sorted@.len(),
            sv == entries_view(sorted@),
            buffer@ == head + payloads_concat(sv.subrange(0, k as int)),
        decreases sorted@.len() - k,
    {
        assert(sv.subrange(0, k + 1).drop_last() =~= sv.subrange(0, k as int));
        extend_bytes(&mut buffer, sorted[k].1.as_slice());
        k = k + 1;
        assert(buffer@ =~= head + payloads_concat(sv.subrange(0, k as int)));
    }
    assert(sv.subrange(0, k as int) =~= sv);
    hash_buffer(buffer.as_slice())
}

/// The weights part of an operator leaf depends on the set of its input
/// names only: reordering the inputs (or repeating one) leaves it unchanged.
pub proof fn lemma_bound_weights_order_invariant(
    n1: Node,
    n2: Node,
    inits: Map<Seq<u8>, TensorView>,
)
    requires
        forall|s: String| n1.inputs@.contains(s) <==> n2.inputs@.contains(s),
    ensures
        weights_map(n1, inits) == weights_map(n2, inits),
        payloads_concat(sorted_entries(weights_map(n1, inits))) == payloads_concat(
            sorted_entries(weights_map(n2, inits)),
        ),
{
    let w1 = weights_map(n1, inits);
    let w2 = weights_map(n2, inits);
    assert(w1 == weights_of(n1.inputs@, inits));
    assert forall|k: Seq<u8>| #[trigger] w1.contains_key(k) <==> w2.contains_key(k) by {
        if w1.contains_key(k) {
            let i = choose|i: int| 0 <= i < n1.inputs@.len() && name_bytes(n1.inputs@[i]@) == k;
            assert(n1.inputs@.contains(n1.inputs@[i]));
            let j = choose|j: int| 0 <= j < n2.inputs@.len() && n2.inputs@[j] == n1.inputs@[i];
            assert(name_bytes(n2.inputs@[j]@) == k);
        }
        if w2.contains_key(k) {
            let i = choose|i: int| 0 <= i < n2.inputs@.len() && name_bytes(n2.inputs@[i]@) == k;
            assert(n2.inputs@.contains(n2.inputs@[i]));
            let j = choose|j: int| 0 <= j < n1.inputs@.len() && n1.inputs@[j] == n2.inputs@[i];
            assert(name_bytes(n1.inputs@[j]@) == k);
        }
    }
    assert(w1 =~= w2);
}

} // verus!
