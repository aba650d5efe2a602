//! The logic of the single-operator program that settles a dispute: it
//! checks that the operator is a leaf of the registered model, that the
//! tensors it is given are the ones committed to in the pre-state, and
//! commits to the pre-state and post-state hashes.
//!
//! The program runs in two halves around the operator kernel: the first
//! checks and prepares the operator's inputs, the kernel runs on them, the
//! second commits to the state it left behind.

use vstd::prelude::*;
use vstd::utf8::{encode_utf8, is_char_boundary};
use crate::bytes::{bytes_equal, extend_bytes};
use crate::digest::{sha256, hash_buffer};
use crate::keyed::{name_bytes, name_bytes_of, entries_view, functional, pairs_map, sorted_entries, lemma_sorted_entries, sort_entries, encode_entries};
use crate::merkle::{verify, verify_spec};
use crate::node::{Node, node_bytes, payloads_concat, encode_node};
use crate::tensor::{Tensor, TensorView, tensor_hash_spec, tensor_hash};
use crate::tensor_map::{TensorMap, map_hash_spec, hash_view};

verus! {

/// The suffix that marks an input name as naming an initializer.
pub open spec fn sentinel() -> Seq<u8> {
    encode_utf8("graph_initializer"@)
}

/// Whether a name carries the initializer suffix, and the name without it.
pub open spec fn strip_spec(n: Seq<u8>) -> (bool, Seq<u8>) {
    let k = n.len() - sentinel().len();
    if n.len() >= sentinel().len() && n.subrange(k, n.len() as int) == sentinel() && is_char_boundary(n, k) {
        (true, n.subrange(0, k))
    } else {
        (false, n)
    }
}

/// Splits the initializer suffix off a name.
pub fn strip_sentinel(name: &String) -> (r: (bool, String))
    ensures
        r.0 == strip_spec(name_bytes(name@)).0,
        name_bytes(r.1@) == strip_spec(name_bytes(name@)).1,
{
    let s = "graph_initializer";
    let suffix = s.as_bytes();
    let b = name_bytes_of(name);
    assert(suffix@ == sentinel());
    if b.len() < suffix.len() {
        return (false, name.clone());
    }
    let blen = b.len();
    let k = blen - suffix.len();
    let mut i: usize = 0;
    while i < suffix.len()
        invariant
            b@ == name_bytes(name@),
            suffix@ == sentinel(),
            blen == b@.len(),
            k + suffix@.len() == b@.len(),
            i <= suffix@.len(),
            forall|j: int| 0 <= j < i ==> b@[k + j] == #[trigger] suffix@[j],
        decreases suffix@.len() - i,
    {
        if b[k + i] != suffix[i] {
            assert(b@.subrange(k as int, b@.len() as int)[i as int] != suffix@[i as int]);
            assert(b@.subrange(k as int, b@.len() as int) != sentinel());
            return (false, name.clone());
        }
        i = i + 1;
    }
    assert(b@.subrange(k as int, b@.len() as int) =~= suffix@);
    let st = name.as_str();
    if !st.is_char_boundary(k) {
        return (false, name.clone());
    }
    let (head, _tail) = st.split_at(k);
    let stripped = head.to_owned();
    (true, stripped)
}

/// The hash of a state given as a list of (name, tensor hash) entries.
pub fn hash_list_hash(list: &Vec<(String, Vec<u8>)>) -> (r: Vec<u8>)
    requires
        functional(entries_view(list@)),
    ensures
        r@ == map_hash_spec(pairs_map(entries_view(list@))),
{
    let sorted = sort_entries(list);
    proof {
        lemma_sorted_entries(entries_view(sorted@), pairs_map(entries_view(list@)));
    }
    let bytes = encode_entries(&sorted);
    hash_buffer(bytes.as_slice())
}

/// Why the program aborts.
#[derive(Clone, Copy, Debug, PartialEq, Eq, Structural)]
pub enum OperatorProofError {
    /// The Merkle proof does not show the leaf in the model.
    MerkleProof,
    /// A tensor has no hash in the pre-state, or a different one.
    InputHash,
    /// The operator and its weights do not hash to the leaf.
    LeafHash,
}

/// What the first half hands to the kernel.
#[derive(Debug)]
pub struct PreparedOperator {
    /// The hash of the pre-state.
    pub committed_input_hash: Vec<u8>,
    /// The operator's input tensors, under their names without suffix.
    pub inputs: TensorMap,
}

/// Every given tensor has, under its name without suffix, its hash in the pre-state.
pub open spec fn inputs_committed(raw: Seq<(Seq<u8>, TensorView)>, hm: Map<Seq<u8>, Seq<u8>>) -> bool {
    forall|i: int| 0 <= i < raw.len() ==> #[trigger] inputs_committed_at(raw, hm, i)
}

/// The weights among the given tensors: names with the suffix, stripped,
/// mapped to their hashes in the pre-state.
pub open spec fn given_weights(raw: Seq<(Seq<u8>, TensorView)>, hm: Map<Seq<u8>, Seq<u8>>) -> Map<Seq<u8>, Seq<u8>> {
    Map::new(
        |k: Seq<u8>| exists|i: int| 0 <= i < raw.len() && strip_spec(raw[i].0) == (true, k),
        |k: Seq<u8>| hm[k],
    )
}

/// The operator leaf that the given operator and weights hash to.
pub open spec fn derived_leaf(node: Node, raw: Seq<(Seq<u8>, TensorView)>, hm: Map<Seq<u8>, Seq<u8>>) -> Seq<u8> {
    sha256(node_bytes(node) + payloads_concat(sorted_entries(given_weights(raw, hm))))
}

/// One given tensor is committed to in the pre-state.
pub open spec fn inputs_committed_at(raw: Seq<(Seq<u8>, TensorView)>, hm: Map<Seq<u8>, Seq<u8>>, i: int) -> bool {
    let k = strip_spec(raw[i].0).1;
    hm.contains_key(k) && hm[k] == tensor_hash_spec(raw[i].1)
}

/// Checks every given tensor against the pre-state and gathers the
/// operator's inputs and weights.
fn collect_inputs(inputs_raw: &TensorMap, inputs_hashes: &Vec<(String, Vec<u8>)>) -> (r: Result<(TensorMap, Vec<(String, Vec<u8>)>), ()>)
    requires
        inputs_raw.wf(),
        functional(entries_view(inputs_hashes@)),
    ensures
        ({
            let hm = pairs_map(entries_view(inputs_hashes@));
            let raw = inputs_raw.entry_seq();
            &&& r is Err <==> !inputs_committed(raw, hm)
            &&& r is Ok ==> {
                let (inputs, weights) = r->Ok_0;
                &&& inputs.wf()
                &&& forall|k: Seq<u8>| #[trigger] inputs.view().contains_key(k) <==> exists|i: int|
                    0 <= i < raw.len() && strip_spec(raw[i].0).1 == k
                &&& forall|k: Seq<u8>| #[trigger] inputs.view().contains_key(k) ==> tensor_hash_spec(inputs.view()[k]) == hm[k]
                &&& functional(entries_view(weights@))
                &&& pairs_map(entries_view(weights@)) == given_weights(raw, hm)
            }
        }),
{
    let ghost hm = pairs_map(entries_view(inputs_hashes@));
    let ghost raw = inputs_raw.entry_seq();
    let entries = inputs_raw.entries();
    let mut inputs = TensorMap::new();
    let mut i: usize = 0;
    while i < entries.len()
        invariant
            inputs_raw.wf(),
            raw == inputs_raw.entry_seq(),
            entries@.map_values(|e: (String, Tensor)| (name_bytes(e.0@), e.1@)) == raw,
            hm == pairs_map(entries_view(inputs_hashes@)),
            functional(entries_view(inputs_hashes@)),
            i <= raw.len(),
            inputs.wf(),
            forall|j: int| 0 <= j < i ==> #[trigger] inputs_committed_at(raw, hm, j),
            forall|k: Seq<u8>| #[trigger] inputs.view().contains_key(k) <==> exists|j: int|
                0 <= j < i && strip_spec(raw[j].0).1 == k,
            forall|k: Seq<u8>| #[trigger] inputs.view().contains_key(k) ==> tensor_hash_spec(inputs.view()[k]) == hm[k],
        decreases raw.len() - i,
    {
        proof {
            assert(raw[i as int] == (name_bytes(entries@[i as int].0@), entries@[i as int].1@));
            assert(crate::tensor::tensor_valid(raw[i as int].1));
        }
        let (_is_weight, name) = strip_sentinel(&entries[i].0);
        let h = tensor_hash(&entries[i].1);
        match lookup_hash(inputs_hashes, &name) {
            None => {
                assert(!inputs_committed_at(raw, hm, i as int));
                return Err(());
            },
            Some(expected) => {
                if !bytes_equal(expected.as_slice(), h.as_slice()) {
                    assert(!inputs_committed_at(raw, hm, i as int));
                    return Err(());
                }
            },
        }
        let ghost k = name_bytes(name@);
        let ghost prev_in = inputs.view();
        let t = entries[i].1.duplicate();
        inputs.insert(name, t);
        proof {
            assert(inputs_committed_at(raw, hm, i as int));
            assert forall|kk: Seq<u8>| #[trigger] inputs.view().contains_key(kk) <==> exists|j: int|
                0 <= j < i + 1 && strip_spec(raw[j].0).1 == kk by {
                if kk != k && inputs.view().contains_key(kk) {
                    assert(prev_in.contains_key(kk));
                }
                if kk == k {
                    assert(strip_spec(raw[i as int].0).1 == kk);
                }
            }
        }
        i = i + 1;
    }
    assert(inputs_committed(raw, hm));
    let weights = collect_weights(inputs_raw, inputs_hashes);
    Ok((inputs, weights))
}

/// The (name, hash) entries of the given weights, in storage order.
pub open spec fn weight_entries(raw: Seq<(Seq<u8>, TensorView)>, hm: Map<Seq<u8>, Seq<u8>>) -> Seq<(Seq<u8>, Seq<u8>)>
    decreases raw.len(),
{
    if raw.len() == 0 {
        seq![]
    } else {
        let rest = weight_entries(raw.drop_last(), hm);
        let s = strip_spec(raw.last().0);
        if s.0 {
            rest.push((s.1, hm[s.1]))
        } else {
            rest
        }
    }
}

proof fn lemma_weight_entries(raw: Seq<(Seq<u8>, TensorView)>, hm: Map<Seq<u8>, Seq<u8>>)
    ensures
        forall|a: int| 0 <= a < weight_entries(raw, hm).len() ==> {
            let e = #[trigger] weight_entries(raw, hm)[a];
            &&& e.1 == hm[e.0]
            &&& exists|j: int| 0 <= j < raw.len() && strip_spec(raw[j].0) == (true, e.0)
        },
        forall|j: int| 0 <= j < raw.len() && (#[trigger] strip_spec(raw[j].0)).0 ==> exists|a: int|
            0 <= a < weight_entries(raw, hm).len() && weight_entries(raw, hm)[a].0 == strip_spec(raw[j].0).1,
    decreases raw.len(),
{
    if raw.len() > 0 {
        let pre = raw.drop_last();
        lemma_weight_entries(pre, hm);
        let rest = weight_entries(pre, hm);
        let we = weight_entries(raw, hm);
        assert forall|a: int| 0 <= a < we.len() implies {
            let e = #[trigger] we[a];
            &&& e.1 == hm[e.0]
            &&& exists|j: int| 0 <= j < raw.len() && strip_spec(raw[j].0) == (true, e.0)
        } by {
            if a < rest.len() {
                assert(we[a] == rest[a]);
                let j = choose|j: int| 0 <= j < pre.len() && strip_spec(pre[j].0) == (true, rest[a].0);
                assert(raw[j] == pre[j]);
            } else {
                assert(strip_spec(raw[raw.len() - 1].0) == (true, we[a].0));
            }
        }
        assert forall|j: int| 0 <= j < raw.len() && (#[trigger] strip_spec(raw[j].0)).0 implies exists|a: int|
            0 <= a < we.len() && we[a].0 == strip_spec(raw[j].0).1 by {
            if j < pre.len() {
                assert(raw[j] == pre[j]);
                let a = choose|a: int| 0 <= a < rest.len() && rest[a].0 == strip_spec(pre[j].0).1;
                assert(we[a] == rest[a]);
            } else {
                assert(we[rest.len() as int].0 == strip_spec(raw[j].0).1);
            }
        }
    }
}

proof fn lemma_weight_entries_map(raw: Seq<(Seq<u8>, TensorView)>, hm: Map<Seq<u8>, Seq<u8>>)
    ensures
        functional(weight_entries(raw, hm)),
        pairs_map(weight_entries(raw, hm)) == given_weights(raw, hm),
{
    lemma_weight_entries(raw, hm);
    let wv = weight_entries(raw, hm);
    let gw = given_weights(raw, hm);
    assert forall|kk: Seq<u8>| pairs_map(wv).contains_key(kk) <==> #[trigger] gw.contains_key(kk) by {
        if gw.contains_key(kk) {
            let j = choose|j: int| 0 <= j < raw.len() && strip_spec(raw[j].0) == (true, kk);
            assert(strip_spec(raw[j].0).0);
        }
    }
    assert forall|kk: Seq<u8>| pairs_map(wv).contains_key(kk) implies pairs_map(wv)[kk] == #[trigger] gw[kk] by {
        let a = choose|a: int| 0 <= a < wv.len() && wv[a].0 == kk;
        assert(wv[a].1 == hm[wv[a].0]);
    }
    assert(pairs_map(wv) =~= gw);
    assert forall|a: int, b: int| 0 <= a < wv.len() && 0 <= b < wv.len() && #[trigger] wv[a].0 == #[trigger] wv[b].0
        implies wv[a].1 == wv[b].1 by {
        assert(wv[a].1 == hm[wv[a].0]);
        assert(wv[b].1 == hm[wv[b].0]);
    }
}

/// The weights among the given tensors, with their hashes in the pre-state.
fn collect_weights(inputs_raw: &TensorMap, inputs_hashes: &Vec<(String, Vec<u8>)>) -> (r: Vec<(String, Vec<u8>)>)
    requires
        inputs_raw.wf(),
        functional(entries_view(inputs_hashes@)),
        inputs_committed(inputs_raw.entry_seq(), pairs_map(entries_view(inputs_hashes@))),
    ensures
        functional(entries_view(r@)),
        pairs_map(entries_view(r@)) == given_weights(inputs_raw.entry_seq(), pairs_map(entries_view(inputs_hashes@))),
{
    let ghost hm = pairs_map(entries_view(inputs_hashes@));
    let ghost raw = inputs_raw.entry_seq();
    let entries = inputs_raw.entries();
    let mut weights: Vec<(String, Vec<u8>)> = Vec::new();
    let mut i: usize = 0;
    while i < entries.len()
        invariant
            raw == inputs_raw.entry_seq(),
            entries@.map_values(|e: (String, Tensor)| (name_bytes(e.0@), e.1@)) == raw,
            hm == pairs_map(entries_view(inputs_hashes@)),
            functional(entries_view(inputs_hashes@)),
            inputs_committed(raw, hm),
            i <= raw.len(),
            entries_view(weights@) == weight_entries(raw.subrange(0, i as int), hm),
        decreases raw.len() - i,
    {
        proof {
            assert(raw[i as int] == (name_bytes(entries@[i as int].0@), entries@[i as int].1@));
            assert(raw.subrange(0, i + 1).drop_last() =~= raw.subrange(0, i as int));
            assert(raw.subrange(0, i + 1).last() == raw[i as int]);
            assert(inputs_committed_at(raw, hm, i as int));
        }
        let (is_weight, name) = strip_sentinel(&entries[i].0);
        let ghost prev_w = weights@;
        if is_weight {
            match lookup_hash(inputs_hashes, &name) {
                Some(h) => {
                    let hh = h.clone();
                    assert(hh@ =~= h@);
                    let ghost nb = name_bytes(name@);
                    weights.push((name, hh));
                    proof {
                        assert(entries_view(weights@) =~= entries_view(prev_w).push((nb, hh@)));
                    }
                },
                None => {},
            }
        }
        i = i + 1;
    }
    proof {
        assert(raw.subrange(0, i as int) =~= raw);
        lemma_weight_entries_map(raw, hm);
    }
    weights
}

/// The first half of the single-operator program. It checks, in order,
/// the Merkle proof of the operator's leaf, that every given tensor is
/// committed to in the pre-state, and that the operator with its weights
/// hashes to the leaf. On success it returns the pre-state hash and the
/// operator's inputs.
pub fn prepare_operator(
    model_root: &Vec<u8>,
    leaf_indices: &Vec<usize>,
    leaf_hashes: &Vec<Vec<u8>>,
    total_leaves: usize,
    merkle_proof: &Vec<u8>,
    inputs_raw: &TensorMap,
    inputs_hashes: &Vec<(String, Vec<u8>)>,
    node: &Node,
) -> (r: Result<PreparedOperator, OperatorProofError>)
    requires
        inputs_raw.wf(),
        node.wf(),
        functional(entries_view(inputs_hashes@)),
    ensures
        ({
            let hm = pairs_map(entries_view(inputs_hashes@));
            let raw = inputs_raw.entry_seq();
            let merkle_ok = leaf_indices@.len() == 1 && leaf_hashes@.len() == 1 && verify_spec(
                model_root@,
                leaf_indices@[0] as nat,
                leaf_hashes@[0]@,
                total_leaves as nat,
                merkle_proof@,
            );
            &&& !merkle_ok ==> r == Err::<PreparedOperator, OperatorProofError>(OperatorProofError::MerkleProof)
            &&& merkle_ok && !inputs_committed(raw, hm) ==> r == Err::<PreparedOperator, OperatorProofError>(
                OperatorProofError::InputHash,
            )
            &&& merkle_ok && inputs_committed(raw, hm) && derived_leaf(*node, raw, hm) != leaf_hashes@[0]@
                ==> r == Err::<PreparedOperator, OperatorProofError>(OperatorProofError::LeafHash)
            &&& merkle_ok && inputs_committed(raw, hm) && derived_leaf(*node, raw, hm) == leaf_hashes@[0]@
                ==> r is Ok
            &&& r is Ok ==> {
                let p = r->Ok_0;
                &&& p.committed_input_hash@ == map_hash_spec(hm)
                &&& p.inputs.wf()
                &&& forall|k: Seq<u8>| #[trigger] p.inputs.view().contains_key(k) <==> exists|i: int|
                    0 <= i < raw.len() && strip_spec(raw[i].0).1 == k
                &&& forall|k: Seq<u8>| #[trigger] p.inputs.view().contains_key(k) ==> tensor_hash_spec(
                    p.inputs.view()[k],
                ) == hm[k]
            }
        }),
{
    let ghost hm = pairs_map(entries_view(inputs_hashes@));
    let ghost raw = inputs_raw.entry_seq();
    let committed_input_hash = hash_list_hash(inputs_hashes);
    if !verify(model_root, leaf_indices, leaf_hashes, total_leaves, merkle_proof) {
        return Err(OperatorProofError::MerkleProof);
    }
    let (inputs, weights) = match collect_inputs(inputs_raw, inputs_hashes) {
        Ok(x) => x,
        Err(()) => {
            return Err(OperatorProofError::InputHash);
        },
    };
    let ghost gw = given_weights(raw, hm);
    let sorted = sort_entries(&weights);
    proof {
        lemma_sorted_entries(entries_view(sorted@), gw);
    }
    let mut buffer = encode_node(node);
    let ghost head = buffer@;
    let ghost sv = entries_view(sorted@);
    let mut k: usize = 0;
    while k < sorted.len()
        invariant
            k <= sorted@.len(),
            sv == entries_view(sorted@),
            buffer@ == head + payloads_concat(sv.subrange(0, k as int)),
        decreases sorted@.len() - k,
    {
        assert(sv.subrange(0, k + 1).drop_last() =~= sv.subrange(0, k as int));
        extend_bytes(&mut buffer, sorted[k].1.as_slice());
        k = k + 1;
        assert(buffer@ =~= head + payloads_concat(sv.subrange(0, k as int)));
    }
    assert(sv.subrange(0, k as int) =~= sv);
    let leaf = hash_buffer(buffer.as_slice());
    if !bytes_equal(leaf.as_slice(), leaf_hashes[0].as_slice()) {
        return Err(OperatorProofError::LeafHash);
    }
    Ok(PreparedOperator { committed_input_hash, inputs })
}

/// The payload of the first entry named `name`, if any.
pub fn lookup_hash<'a>(list: &'a Vec<(String, Vec<u8>)>, name: &String) -> (r: Option<&'a Vec<u8>>)
    requires
        functional(entries_view(list@)),
    ensures
        r is Some <==> pairs_map(entries_view(list@)).contains_key(name_bytes(name@)),
        r is Some ==> r->0@ == pairs_map(entries_view(list@))[name_bytes(name@)],
{
    let ghost ev = entries_view(list@);
    let nm = name_bytes_of(name);
    let mut i: usize = 0;
    while i < list.len()
        invariant
            i <= list@.len(),
            ev == entries_view(list@),
            functional(ev),
            nm@ == name_bytes(name@),
            forall|j: int| 0 <= j < i ==> (#[trigger] ev[j]).0 != nm@,
        decreases list@.len() - i,
    {
        assert(ev[i as int] == (name_bytes(list@[i as int].0@), list@[i as int].1@));
        if bytes_equal(name_bytes_of(&list[i].0), nm) {
            proof {
                assert(ev[i as int].0 == nm@);
                let m = pairs_map(ev);
                assert(m.dom().contains(nm@));
                let j = choose|j: int| 0 <= j < ev.len() && ev[j].0 == nm@;
                assert(ev[j].1 == ev[i as int].1);
            }
            return Some(&list[i].1);
        }
        i = i + 1;
    }
    None
}

/// The second half of the single-operator program: the post-state is the
/// pre-state with the hash of every tensor that the kernel added under a
/// new name. Returns its hash.
pub fn committed_output_hash(inputs_hashes: &Vec<(String, Vec<u8>)>, after: &TensorMap) -> (r: Vec<u8>)
    requires
        functional(entries_view(inputs_hashes@)),
        after.wf(),
    ensures
        r@ == map_hash_spec(hash_view(after.view()).union_prefer_right(pairs_map(entries_view(inputs_hashes@)))),
{
    let ghost hm = pairs_map(entries_view(inputs_hashes@));
    let ghost hv = hash_view(after.view());
    let mut list: Vec<(String, Vec<u8>)> = Vec::new();
    let mut i: usize = 0;
    while i < inputs_hashes.len()
        invariant
            i <= inputs_hashes@.len(),
            entries_view(list@) =~= entries_view(inputs_hashes@).subrange(0, i as int),
        decreases inputs_hashes@.len() - i,
    {
        let name = inputs_hashes[i].0.clone();
        let h = inputs_hashes[i].1.clone();
        assert(h@ =~= inputs_hashes@[i as int].1@);
        let ghost prev = list@;
        list.push((name, h));
        proof {
            assert(entries_view(list@) =~= entries_view(prev).push((name_bytes(name@), h@)));
        }
        i = i + 1;
    }
    assert(entries_view(inputs_hashes@).subrange(0, i as int) =~= entries_view(inputs_hashes@));
    let entries = after.entries();
    let ghost es = after.entry_seq();
    let ghost base = entries_view(inputs_hashes@);
    let mut k: usize = 0;
    while k < entries.len()
        invariant
            after.wf(),
            es == after.entry_seq(),
            entries@.map_values(|e: (String, Tensor)| (name_bytes(e.0@), e.1@)) == es,
            hv == hash_view(after.view()),
            hm == pairs_map(base),
            base == entries_view(inputs_hashes@),
            functional(base),
            k <= es.len(),
            entries_view(list@).len() >= base.len(),
            entries_view(list@).subrange(0, base.len() as int) == base,
            forall|a: int| base.len() <= a < list@.len() ==> {
                let e = #[trigger] entries_view(list@)[a];
                &&& !hm.contains_key(e.0)
                &&& hv.contains_key(e.0)
                &&& e.1 == hv[e.0]
            },
            forall|j: int| 0 <= j < k && !hm.contains_key((#[trigger] es[j]).0) ==> exists|a: int|
                0 <= a < list@.len() && entries_view(list@)[a].0 == es[j].0,
        decreases es.len() - k,
    {
        proof {
            assert(es[k as int] == (name_bytes(entries@[k as int].0@), entries@[k as int].1@));
            assert(crate::tensor::tensor_valid(es[k as int].1));
            after.lemma_view_at(k as int);
        }
        let known = lookup_hash(inputs_hashes, &entries[k].0);
        if known.is_none() {
            let name = entries[k].0.clone();
            let h = tensor_hash(&entries[k].1);
            let ghost prev = list@;
            list.push((name, h));
            proof {
                assert(entries_view(list@) =~= entries_view(prev).push((name_bytes(name@), h@)));
                assert(entries_view(list@).subrange(0, base.len() as int) =~= entries_view(prev).subrange(0, base.len() as int));
                assert forall|a: int| base.len() <= a < list@.len() implies {
                    let e = #[trigger] entries_view(list@)[a];
                    &&& !hm.contains_key(e.0)
                    &&& hv.contains_key(e.0)
                    &&& e.1 == hv[e.0]
                } by {
                    if a < prev.len() {
                        assert(entries_view(list@)[a] == entries_view(prev)[a]);
                    }
                }
                assert forall|j: int| 0 <= j < k + 1 && !hm.contains_key((#[trigger] es[j]).0) implies exists|a: int|
                    0 <= a < list@.len() && entries_view(list@)[a].0 == es[j].0 by {
                    if j < k {
                        let a = choose|a: int| 0 <= a < prev.len() && entries_view(prev)[a].0 == es[j].0;
                        assert(entries_view(list@)[a] == entries_view(prev)[a]);
                    } else {
                        assert(entries_view(list@)[prev.len() as int].0 == es[j].0);
                    }
                }
            }
        }
        k = k + 1;
    }
    let ghost lv = entries_view(list@);
    let ghost target = hv.union_prefer_right(hm);
    proof {
        assert forall|a: int| 0 <= a < base.len() implies #[trigger] lv[a] == base[a] by {
            assert(lv.subrange(0, base.len() as int)[a] == lv[a]);
        }
        assert forall|a: int| 0 <= a < lv.len() implies target.contains_key((#[trigger] lv[a]).0) && target[lv[a].0] == lv[a].1 by {
            if a < base.len() {
                assert(hm.contains_key(base[a].0));
                let j = choose|j: int| 0 <= j < base.len() && base[j].0 == base[a].0;
                assert(base[j].1 == base[a].1);
            }
        }
        assert(functional(lv)) by {
            assert forall|a: int, b: int| 0 <= a < lv.len() && 0 <= b < lv.len() && #[trigger] lv[a].0 == #[trigger] lv[b].0
                implies lv[a].1 == lv[b].1 by {
                assert(target.contains_key(lv[a].0) && target[lv[a].0] == lv[a].1);
                assert(target.contains_key(lv[b].0) && target[lv[b].0] == lv[b].1);
            }
        }
        assert(pairs_map(lv) =~= target) by {
            assert forall|kk: Seq<u8>| pairs_map(lv).contains_key(kk) <==> #[trigger] target.contains_key(kk) by {
                if pairs_map(lv).contains_key(kk) {
                    let a = choose|a: int| 0 <= a < lv.len() && lv[a].0 == kk;
                    assert(target.contains_key(lv[a].0));
                }
                if target.contains_key(kk) {
                    if hm.contains_key(kk) {
                        let j = choose|j: int| 0 <= j < base.len() && base[j].0 == kk;
                        assert(lv[j].0 == kk);
                    } else {
                        let j = choose|j: int| 0 <= j < es.len() && es[j].0 == kk;
                        let a = choose|a: int| 0 <= a < list@.len() && entries_view(list@)[a].0 == es[j].0;
                        assert(lv[a].0 == kk);
                    }
                }
            }
            assert forall|kk: Seq<u8>| pairs_map(lv).contains_key(kk) implies pairs_map(lv)[kk] == #[trigger] target[kk] by {
                let a = choose|a: int| 0 <= a < lv.len() && lv[a].0 == kk;
                assert(target.contains_key(lv[a].0) && target[lv[a].0] == lv[a].1);
            }
        }
    }
    hash_list_hash(&list)
}

} // verus!
