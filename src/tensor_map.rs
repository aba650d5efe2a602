//! Maps from names to tensors, and the hash that commits to a whole map.

use vstd::prelude::*;
use crate::bytes::bytes_equal;
use crate::digest::{sha256, hash_buffer};
use crate::keyed::{name_bytes, name_bytes_of, entries_view, canonical, sorted_entries, lemma_sorted_entries, lemma_represents_insert, insert_sorted, list_bytes, encode_entries};
use crate::tensor::{Tensor, TensorView, tensor_valid, tensor_hash_spec, tensor_hash};

verus! {

/// The hash that commits to a map from names to tensor hashes: SHA-256 of its
/// entries in ascending name order.
pub open spec fn map_hash_spec(m: Map<Seq<u8>, Seq<u8>>) -> Seq<u8> {
    sha256(list_bytes(sorted_entries(m)))
}

/// Name to tensor hash, for a map from names to tensors.
pub open spec fn hash_view(m: Map<Seq<u8>, TensorView>) -> Map<Seq<u8>, Seq<u8>> {
    m.map_values(|t: TensorView| tensor_hash_spec(t))
}

/// A map from names to tensors. Names are told apart by their UTF-8 bytes.
#[derive(Debug)]
pub struct TensorMap {
    entries: Vec<(String, Tensor)>,
}

impl TensorMap {
    /// The entries as plain values, in storage order.
    pub closed spec fn entry_seq(&self) -> Seq<(Seq<u8>, TensorView)> {
        self.entries@.map_values(|e: (String, Tensor)| (name_bytes(e.0@), e.1@))
    }

    /// Names pairwise distinct, every tensor valid.
    pub open spec fn wf(&self) -> bool {
        &&& distinct_keys(self.entry_seq())
        &&& forall|i: int|
            0 <= i < self.entry_seq().len() ==> tensor_valid(#[trigger] self.entry_seq()[i].1)
    }

    /// The map from name bytes to tensors.
    pub open spec fn view(&self) -> Map<Seq<u8>, TensorView> {
        seq_map(self.entry_seq())
    }

    proof fn lemma_entry(&self, i: int)
        requires
            0 <= i < self.entries@.len(),
        ensures
            self.entry_seq().len() == self.entries@.len(),
            self.entry_seq()[i] == (name_bytes(self.entries@[i].0@), self.entries@[i].1@),
    {
    }

    /// The entry at `i` is what the map holds under its name.
    pub proof fn lemma_view_at(&self, i: int)
        requires
            self.wf(),
            0 <= i < self.entry_seq().len(),
        ensures
            self.view().contains_key(self.entry_seq()[i].0),
            self.view()[self.entry_seq()[i].0] == self.entry_seq()[i].1,
    {
        lemma_seq_map_at(self.entry_seq(), i);
    }

    /// An empty map.
    pub fn new() -> (r: TensorMap)
        ensures
            r.wf(),
            r.view() == Map::<Seq<u8>, TensorView>::empty(),
    {
        let r = TensorMap { entries: Vec::new() };
        assert(r.view() =~= Map::<Seq<u8>, TensorView>::empty());
        r
    }

    /// Number of entries.
    pub fn len(&self) -> (r: usize)
        requires
            self.wf(),
        ensures
            r == self.view().dom().len(),
    {
        proof {
            self.lemma_dom_size();
        }
        self.entries.len()
    }

    proof fn lemma_dom_size(&self)
        requires
            self.wf(),
        ensures
            self.view().dom().finite(),
            self.view().dom().len() == self.entry_seq().len(),
    {
        let keys = self.entry_seq().map_values(|e: (Seq<u8>, TensorView)| e.0);
        assert(keys.no_duplicates()) by {
            assert forall|i: int, j: int| 0 <= i < keys.len() && 0 <= j < keys.len() && i != j
                implies keys[i] != keys[j] by {
                if i < j {
                    assert(self.entry_seq()[i].0 != self.entry_seq()[j].0);
                } else {
                    assert(self.entry_seq()[j].0 != self.entry_seq()[i].0);
                }
            }
        }
        assert(self.view().dom() =~= keys.to_set()) by {
            assert forall|k: Seq<u8>| self.view().dom().contains(k) implies keys.to_set().contains(k) by {
                let i = choose|i: int| 0 <= i < self.entry_seq().len() && self.entry_seq()[i].0 == k;
                assert(keys[i] == k);
            }
            assert forall|k: Seq<u8>| keys.to_set().contains(k) implies self.view().dom().contains(k) by {
                let i = choose|i: int| 0 <= i < keys.len() && keys[i] == k;
                assert(self.entry_seq()[i].0 == k);
            }
        }
        keys.unique_seq_to_set();
    }

    /// Position of the entry named `name`, if any.
    fn find(&self, name: &String) -> (r: Option<usize>)
        requires
            self.wf(),
        ensures
            r is Some <==> self.view().contains_key(name_bytes(name@)),
            r is Some ==> r->0 < self.entry_seq().len() && self.entry_seq()[r->0 as int].0 == name_bytes(name@),
    {
        let nm = name_bytes_of(name);
        let mut i: usize = 0;
        while i < self.entries.len()
            invariant
                i <= self.entry_seq().len(),
                self.entry_seq().len() == self.entries@.len(),
                nm@ == name_bytes(name@),
                forall|j: int| 0 <= j < i ==> #[trigger] self.entry_seq()[j].0 != nm@,
            decreases self.entries@.len() - i,
        {
            proof {
                self.lemma_entry(i as int);
            }
            if bytes_equal(name_bytes_of(&self.entries[i].0), nm) {
                assert(self.view().dom().contains(nm@));
                return Some(i);
            }
            i = i + 1;
        }
        None
    }

    /// Whether an entry is named `name`.
    pub fn contains_key(&self, name: &String) -> (r: bool)
        requires
            self.wf(),
        ensures
            r == self.view().contains_key(name_bytes(name@)),
    {
        self.find(name).is_some()
    }

    /// The tensor named `name`, if any.
    pub fn get(&self, name: &String) -> (r: Option<&Tensor>)
        requires
            self.wf(),
        ensures
            r is Some <==> self.view().contains_key(name_bytes(name@)),
            r is Some ==> r->0@ == self.view()[name_bytes(name@)] && r->0.wf(),
    {
        match self.find(name) {
            Some(i) => {
                proof {
                    self.lemma_view_at(i as int);
                }
                Some(&self.entries[i].1)
            },
            None => None,
        }
    }

    /// Binds `name` to `tensor`, replacing what it was bound to.
    pub fn insert(&mut self, name: String, tensor: Tensor)
        requires
            old(self).wf(),
            tensor.wf(),
        ensures
            final(self).wf(),
            final(self).view() == old(self).view().insert(name_bytes(name@), tensor@),
    {
        let ghost nb = name_bytes(name@);
        let ghost tv = tensor@;
        let ghost old_seq = self.entry_seq();
        match self.find(&name) {
            Some(i) => {
                self.entries[i] = (name, tensor);
                proof {
                    assert(self.entry_seq() =~= old_seq.update(i as int, (nb, tv)));
                    lemma_seq_map_update(old_seq, i as int, nb, tv);
                }
            },
            None => {
                self.entries.push((name, tensor));
                proof {
                    assert(self.entry_seq() =~= old_seq.push((nb, tv)));
                    lemma_seq_map_push(old_seq, nb, tv);
                }
            },
        }
    }

    /// The entries, in storage order.
    pub fn entries(&self) -> (r: &Vec<(String, Tensor)>)
        ensures
            r@.map_values(|e: (String, Tensor)| (name_bytes(e.0@), e.1@)) == self.entry_seq(),
    {
        &self.entries
    }

    /// Name and tensor hash of every entry, in ascending name order.
    pub fn hashes(&self) -> (r: Vec<(String, Vec<u8>)>)
        requires
            self.wf(),
        ensures
            canonical(entries_view(r@), hash_view(self.view())),
            forall|i: int| 0 <= i < r@.len() ==> (#[trigger] r@[i]).1@.len() == 32,
    {
        let mut out: Vec<(String, Vec<u8>)> = Vec::new();
        let ghost mut m: Map<Seq<u8>, Seq<u8>> = Map::empty();
        let mut i: usize = 0;
        while i < self.entries.len()
            invariant
                self.wf(),
                i <= self.entry_seq().len(),
                self.entry_seq().len() == self.entries@.len(),
                canonical(entries_view(out@), m),
                forall|j: int| 0 <= j < out@.len() ==> (#[trigger] out@[j]).1@.len() == 32,
                forall|k: Seq<u8>| #[trigger] m.contains_key(k) <==> exists|j: int|
                    0 <= j < i && self.entry_seq()[j].0 == k,
                forall|j: int| 0 <= j < i ==> #[trigger] m[self.entry_seq()[j].0] == tensor_hash_spec(
                    self.entry_seq()[j].1,
                ),
            decreases self.entries@.len() - i,
        {
            proof {
                self.lemma_entry(i as int);
            }
            assert(tensor_valid(self.entry_seq()[i as int].1));
            let name = self.entries[i].0.clone();
            let h = tensor_hash(&self.entries[i].1);
            let ghost k = self.entry_seq()[i as int].0;
            proof {
                assert forall|j: int| 0 <= j < out@.len() implies entries_view(out@)[j].0 != k by {
                    let kk = entries_view(out@)[j].0;
                    assert(m.contains_key(kk));
                    let jj = choose|jj: int| 0 <= jj < i && self.entry_seq()[jj].0 == kk;
                    assert(self.entry_seq()[jj].0 != self.entry_seq()[i as int].0);
                }
                assert(name@ == self.entries@[i as int].0@);
                assert forall|j: int| 0 <= j < i implies self.entry_seq()[j].0 != k by {
                    assert(self.entry_seq()[j].0 != self.entry_seq()[i as int].0);
                }
            }
            let ghost before = entries_view(out@);
            let ghost hv = h@;
            let inserted = insert_sorted(&mut out, name, h);
            proof {
                assert(inserted);
                let pos = choose|pos: int| 0 <= pos <= before.len()
                    && entries_view(out@) == before.insert(pos, (k, hv));
                lemma_represents_insert(before, m, pos, k, hv);
                m = m.insert(k, hv);
                assert forall|j: int| 0 <= j < out@.len() implies (#[trigger] out@[j]).1@.len() == 32 by {
                    assert(entries_view(out@)[j] == before.insert(pos, (k, hv))[j]);
                    if j < pos {
                        assert(entries_view(out@)[j].1 == out@[j].1@);
                    }
                }
            }
            i = i + 1;
        }
        proof {
            let hv = hash_view(self.view());
            assert forall|k: Seq<u8>| #[trigger] m.contains_key(k) <==> hv.contains_key(k) by {}
            assert forall|k: Seq<u8>| m.contains_key(k) implies m[k] == #[trigger] hv[k] by {
                let j = choose|j: int| 0 <= j < i && self.entry_seq()[j].0 == k;
                self.lemma_view_at(j);
            }
            assert(m =~= hv);
        }
        out
    }

    /// The hash that commits to this map: it depends on the names and the
    /// tensors' hashes alone, not on the order in which entries were added.
    pub fn map_hash(&self) -> (r: Vec<u8>)
        requires
            self.wf(),
        ensures
            r@ == map_hash_spec(hash_view(self.view())),
            r@.len() == 32,
    {
        let list = self.hashes();
        proof {
            lemma_sorted_entries(entries_view(list@), hash_view(self.view()));
        }
        let bytes = encode_entries(&list);
        hash_buffer(bytes.as_slice())
    }

    /// A copy with the same contents.
    pub fn duplicate(&self) -> (r: TensorMap)
        requires
            self.wf(),
        ensures
            r.wf(),
            r.view() == self.view(),
    {
        let mut entries: Vec<(String, Tensor)> = Vec::new();
        let mut i: usize = 0;
        while i < self.entries.len()
            invariant
                i <= self.entries@.len(),
                entries@.map_values(|e: (String, Tensor)| (name_bytes(e.0@), e.1@))
                    =~= self.entry_seq().subrange(0, i as int),
            decreases self.entries@.len() - i,
        {
            proof {
                self.lemma_entry(i as int);
            }
            let name = self.entries[i].0.clone();
            let t = self.entries[i].1.duplicate();
            let ghost prev = entries@;
            entries.push((name, t));
            proof {
                assert(entries@ == prev.push((name, t)));
                assert(self.entry_seq().subrange(0, i + 1) =~= self.entry_seq().subrange(0, i as int).push(self.entry_seq()[i as int]));
                assert(entries@.map_values(|e: (String, Tensor)| (name_bytes(e.0@), e.1@))
                    =~= prev.map_values(|e: (String, Tensor)| (name_bytes(e.0@), e.1@)).push((name_bytes(name@), t@)));
            }
            i = i + 1;
        }
        let r = TensorMap { entries };
        assert(r.entry_seq() =~= self.entry_seq());
        assert(r.view() =~= self.view());
        r
    }
}

/// Keys pairwise distinct.
pub open spec fn distinct_keys(s: Seq<(Seq<u8>, TensorView)>) -> bool {
    forall|i: int, j: int| 0 <= i < j < s.len() ==> #[trigger] s[i].0 != #[trigger] s[j].0
}

/// The map that a list of entries with distinct keys stands for.
pub open spec fn seq_map(s: Seq<(Seq<u8>, TensorView)>) -> Map<Seq<u8>, TensorView> {
    Map::new(
        |k: Seq<u8>| exists|i: int| 0 <= i < s.len() && s[i].0 == k,
        |k: Seq<u8>| s[choose|i: int| 0 <= i < s.len() && s[i].0 == k].1,
    )
}

/// Each entry is in the map under its key.
pub proof fn lemma_seq_map_at(s: Seq<(Seq<u8>, TensorView)>, i: int)
    requires
        distinct_keys(s),
        0 <= i < s.len(),
    ensures
        seq_map(s).contains_key(s[i].0),
        seq_map(s)[s[i].0] == s[i].1,
{
    let k = s[i].0;
    assert(seq_map(s).dom().contains(k));
    let j = choose|j: int| 0 <= j < s.len() && s[j].0 == k;
    if j != i {
        if j < i {
            assert(s[j].0 != s[i].0);
        } else {
            assert(s[i].0 != s[j].0);
        }
    }
}

/// Replacing the entry at a key's position.
pub proof fn lemma_seq_map_update(s: Seq<(Seq<u8>, TensorView)>, i: int, k: Seq<u8>, v: TensorView)
    requires
        distinct_keys(s),
        0 <= i < s.len(),
        s[i].0 == k,
    ensures
        distinct_keys(s.update(i, (k, v))),
        seq_map(s.update(i, (k, v))) == seq_map(s).insert(k, v),
{
    let s2 = s.update(i, (k, v));
    assert(distinct_keys(s2)) by {
        assert forall|a: int, b: int| 0 <= a < b < s2.len() implies #[trigger] s2[a].0 != #[trigger] s2[b].0 by {
            assert(s[a].0 != s[b].0);
        }
    }
    let m2 = seq_map(s2);
    let m = seq_map(s).insert(k, v);
    assert forall|kk: Seq<u8>| #[trigger] m2.contains_key(kk) <==> m.contains_key(kk) by {
        if m2.contains_key(kk) {
            let j = choose|j: int| 0 <= j < s2.len() && s2[j].0 == kk;
            lemma_seq_map_at(s, j);
        }
        if m.contains_key(kk) {
            if kk == k {
                lemma_seq_map_at(s2, i);
            } else {
                let j = choose|j: int| 0 <= j < s.len() && s[j].0 == kk;
                lemma_seq_map_at(s2, j);
            }
        }
    }
    assert forall|kk: Seq<u8>| m2.contains_key(kk) implies m2[kk] == #[trigger] m[kk] by {
        let j = choose|j: int| 0 <= j < s2.len() && s2[j].0 == kk;
        lemma_seq_map_at(s2, j);
        if j != i {
            lemma_seq_map_at(s, j);
        }
    }
    assert(m2 =~= m);
}

/// Appending an entry under a new key.
pub proof fn lemma_seq_map_push(s: Seq<(Seq<u8>, TensorView)>, k: Seq<u8>, v: TensorView)
    requires
        distinct_keys(s),
        !seq_map(s).contains_key(k),
    ensures
        distinct_keys(s.push((k, v))),
        seq_map(s.push((k, v))) == seq_map(s).insert(k, v),
{
    let s2 = s.push((k, v));
    assert(distinct_keys(s2)) by {
        assert forall|a: int, b: int| 0 <= a < b < s2.len() implies #[trigger] s2[a].0 != #[trigger] s2[b].0 by {
            if b == s.len() {
                assert(s[a].0 == s2[a].0);
                if s[a].0 == k {
                    assert(seq_map(s).dom().contains(k));
                }
            } else {
                assert(s[a].0 != s[b].0);
            }
        }
    }
    let m2 = seq_map(s2);
    let m = seq_map(s).insert(k, v);
    assert forall|kk: Seq<u8>| #[trigger] m2.contains_key(kk) <==> m.contains_key(kk) by {
        if m2.contains_key(kk) {
            let j = choose|j: int| 0 <= j < s2.len() && s2[j].0 == kk;
            if j < s.len() {
                lemma_seq_map_at(s, j);
            }
        }
        if m.contains_key(kk) {
            if kk == k {
                lemma_seq_map_at(s2, s.len() as int);
            } else {
                let j = choose|j: int| 0 <= j < s.len() && s[j].0 == kk;
                lemma_seq_map_at(s2, j);
            }
        }
    }
    assert forall|kk: Seq<u8>| m2.contains_key(kk) implies m2[kk] == #[trigger] m[kk] by {
        let j = choose|j: int| 0 <= j < s2.len() && s2[j].0 == kk;
        lemma_seq_map_at(s2, j);
        if j < s.len() {
            lemma_seq_map_at(s, j);
        }
    }
    assert(m2 =~= m);
}

/// Two lists with distinct keys and the same entries stand for the same map.
pub proof fn lemma_seq_map_same(s1: Seq<(Seq<u8>, TensorView)>, s2: Seq<(Seq<u8>, TensorView)>)
    requires
        distinct_keys(s1),
        distinct_keys(s2),
        forall|e: (Seq<u8>, TensorView)| s1.contains(e) <==> s2.contains(e),
    ensures
        seq_map(s1) == seq_map(s2),
{
    let m1 = seq_map(s1);
    let m2 = seq_map(s2);
    assert forall|k: Seq<u8>| #[trigger] m1.contains_key(k) <==> m2.contains_key(k) by {
        if m1.contains_key(k) {
            let i = choose|i: int| 0 <= i < s1.len() && s1[i].0 == k;
            assert(s1.contains(s1[i]));
            let j = choose|j: int| 0 <= j < s2.len() && s2[j] == s1[i];
            lemma_seq_map_at(s2, j);
        }
        if m2.contains_key(k) {
            let i = choose|i: int| 0 <= i < s2.len() && s2[i].0 == k;
            assert(s2.contains(s2[i]));
            let j = choose|j: int| 0 <= j < s1.len() && s1[j] == s2[i];
            lemma_seq_map_at(s1, j);
        }
    }
    assert forall|k: Seq<u8>| m1.contains_key(k) implies m1[k] == #[trigger] m2[k] by {
        let i = choose|i: int| 0 <= i < s1.len() && s1[i].0 == k;
        lemma_seq_map_at(s1, i);
        assert(s1.contains(s1[i]));
        let j = choose|j: int| 0 <= j < s2.len() && s2[j] == s1[i];
        lemma_seq_map_at(s2, j);
    }
    assert(m1 =~= m2);
}

/// Extending a prefix of a list with distinct keys by its next entry.
pub proof fn lemma_prefix_map(s: Seq<(Seq<u8>, TensorView)>, i: int)
    requires
        distinct_keys(s),
        0 <= i < s.len(),
    ensures
        seq_map(s.subrange(0, i + 1)) == seq_map(s.subrange(0, i)).insert(s[i].0, s[i].1),
{
    let pre = s.subrange(0, i);
    assert(s.subrange(0, i + 1) =~= pre.push(s[i]));
    assert(distinct_keys(pre));
    assert(!seq_map(pre).contains_key(s[i].0)) by {
        if seq_map(pre).contains_key(s[i].0) {
            let j = choose|j: int| 0 <= j < pre.len() && pre[j].0 == s[i].0;
            assert(s[j].0 != s[i].0);
        }
    }
    lemma_seq_map_push(pre, s[i].0, s[i].1);
}

/// Two maps whose entry lists are permutations of each other have the same
/// hash: the commitment does not depend on the order of entries.
pub proof fn lemma_map_hash_permutation(a: &TensorMap, b: &TensorMap)
    requires
        a.wf(),
        b.wf(),
        a.entry_seq().to_multiset() == b.entry_seq().to_multiset(),
    ensures
        map_hash_spec(hash_view(a.view())) == map_hash_spec(hash_view(b.view())),
{
    a.entry_seq().to_multiset_ensures();
    b.entry_seq().to_multiset_ensures();
    assert forall|e: (Seq<u8>, TensorView)| a.entry_seq().contains(e) <==> b.entry_seq().contains(e) by {
        a.entry_seq().to_multiset_ensures();
        b.entry_seq().to_multiset_ensures();
        assert(a.entry_seq().contains(e) <==> a.entry_seq().to_multiset().count(e) > 0);
        assert(b.entry_seq().contains(e) <==> b.entry_seq().to_multiset().count(e) > 0);
    }
    lemma_seq_map_same(a.entry_seq(), b.entry_seq());
}

} // verus!
