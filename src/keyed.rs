//! Lists of (name, bytes) entries kept in strictly ascending order of the
//! names' UTF-8 bytes: the stable, key-sorted form in which maps and
//! attribute sets are committed to.

use vstd::prelude::*;
use vstd::utf8::encode_utf8;
use crate::bytes::{u64_be, push_u64_be, extend_bytes, bytes_lt, bytes_less, bytes_equal, lemma_bytes_lt_irreflexive,
    lemma_bytes_lt_transitive, lemma_bytes_lt_total};

verus! {

/// The UTF-8 bytes of a name; names are ordered and compared by them.
pub open spec fn name_bytes(s: Seq<char>) -> Seq<u8> {
    encode_utf8(s)
}

/// One entry as plain values: the name's bytes and the payload.
pub open spec fn entry_view(e: (String, Vec<u8>)) -> (Seq<u8>, Seq<u8>) {
    (name_bytes(e.0@), e.1@)
}

/// A list of entries as plain values.
pub open spec fn entries_view(s: Seq<(String, Vec<u8>)>) -> Seq<(Seq<u8>, Seq<u8>)> {
    s.map_values(|e: (String, Vec<u8>)| entry_view(e))
}

/// Keys strictly ascending, hence pairwise distinct.
pub open spec fn strictly_sorted(s: Seq<(Seq<u8>, Seq<u8>)>) -> bool {
    forall|i: int, j: int| 0 <= i < j < s.len() ==> bytes_lt(#[trigger] s[i].0, #[trigger] s[j].0)
}

/// Every entry of `s` is an entry of `m`, and every key of `m` occurs in `s`.
pub open spec fn represents(s: Seq<(Seq<u8>, Seq<u8>)>, m: Map<Seq<u8>, Seq<u8>>) -> bool {
    &&& forall|i: int| 0 <= i < s.len() ==> #[trigger] m.contains_key(s[i].0) && m[s[i].0] == s[i].1
    &&& forall|k: Seq<u8>| #[trigger] m.contains_key(k) ==> exists|i: int| 0 <= i < s.len() && s[i].0 == k
}

/// `s` lists the entries of `m` in ascending key order.
pub open spec fn canonical(s: Seq<(Seq<u8>, Seq<u8>)>, m: Map<Seq<u8>, Seq<u8>>) -> bool {
    strictly_sorted(s) && represents(s, m)
}

/// The entries of a finite map in ascending key order.
pub open spec fn sorted_entries(m: Map<Seq<u8>, Seq<u8>>) -> Seq<(Seq<u8>, Seq<u8>)> {
    choose|s: Seq<(Seq<u8>, Seq<u8>)>| canonical(s, m)
}

/// A map has at most one list of its entries in ascending key order.
pub proof fn lemma_canonical_unique(
    s1: Seq<(Seq<u8>, Seq<u8>)>,
    s2: Seq<(Seq<u8>, Seq<u8>)>,
    m: Map<Seq<u8>, Seq<u8>>,
)
    requires
        canonical(s1, m),
        canonical(s2, m),
    ensures
        s1 == s2,
    decreases s1.len(),
{
    if s1.len() == 0 {
        if s2.len() > 0 {
            assert(m.contains_key(s2[0].0));
        }
        assert(s1 =~= s2);
    } else {
        assert(m.contains_key(s1[0].0));
        let j = choose|j: int| 0 <= j < s2.len() && s2[j].0 == s1[0].0;
        assert(m.contains_key(s2[0].0));
        let i = choose|i: int| 0 <= i < s1.len() && s1[i].0 == s2[0].0;
        if j > 0 {
            assert(bytes_lt(s2[0].0, s2[j].0));
            if i == 0 {
                lemma_bytes_lt_irreflexive(s1[0].0);
            } else {
                assert(bytes_lt(s1[0].0, s1[i].0));
                lemma_bytes_lt_total(s1[0].0, s2[0].0);
            }
        }
        let k = s1[0].0;
        let m2 = m.remove(k);
        let t1 = s1.drop_first();
        let t2 = s2.drop_first();
        assert forall|a: int| 0 <= a < t1.len() implies #[trigger] m2.contains_key(t1[a].0) && m2[t1[a].0] == t1[a].1 by {
            assert(bytes_lt(s1[0].0, s1[a + 1].0));
            lemma_bytes_lt_irreflexive(k);
        }
        assert forall|a: int| 0 <= a < t2.len() implies #[trigger] m2.contains_key(t2[a].0) && m2[t2[a].0] == t2[a].1 by {
            assert(bytes_lt(s2[0].0, s2[a + 1].0));
            lemma_bytes_lt_irreflexive(k);
        }
        assert forall|kk: Seq<u8>| #[trigger] m2.contains_key(kk) implies exists|a: int| 0 <= a < t1.len() && t1[a].0 == kk by {
            let b = choose|b: int| 0 <= b < s1.len() && s1[b].0 == kk;
            assert(t1[b - 1].0 == kk);
        }
        assert forall|kk: Seq<u8>| #[trigger] m2.contains_key(kk) implies exists|a: int| 0 <= a < t2.len() && t2[a].0 == kk by {
            let b = choose|b: int| 0 <= b < s2.len() && s2[b].0 == kk;
            assert(t2[b - 1].0 == kk);
        }
        lemma_canonical_unique(t1, t2, m2);
        assert(s1 =~= s2) by {
            assert(s1 =~= seq![s1[0]] + t1);
            assert(s2 =~= seq![s2[0]] + t2);
        }
    }
}

/// Any list of a map's entries in ascending key order is `sorted_entries` of it.
pub proof fn lemma_sorted_entries(s: Seq<(Seq<u8>, Seq<u8>)>, m: Map<Seq<u8>, Seq<u8>>)
    requires
        canonical(s, m),
    ensures
        sorted_entries(m) == s,
{
    lemma_canonical_unique(sorted_entries(m), s, m);
}

/// Adding an entry under a new key to a list and to the map it represents.
pub proof fn lemma_represents_insert(
    s: Seq<(Seq<u8>, Seq<u8>)>,
    m: Map<Seq<u8>, Seq<u8>>,
    pos: int,
    k: Seq<u8>,
    v: Seq<u8>,
)
    requires
        represents(s, m),
        !m.contains_key(k),
        0 <= pos <= s.len(),
    ensures
        represents(s.insert(pos, (k, v)), m.insert(k, v)),
{
    let s2 = s.insert(pos, (k, v));
    let m2 = m.insert(k, v);
    assert forall|i: int| 0 <= i < s2.len() implies #[trigger] m2.contains_key(s2[i].0) && m2[s2[i].0] == s2[i].1 by {
        if i < pos {
            assert(s2[i] == s[i]);
        } else if i > pos {
            assert(s2[i] == s[i - 1]);
        }
    }
    assert forall|kk: Seq<u8>| #[trigger] m2.contains_key(kk) implies exists|a: int| 0 <= a < s2.len() && s2[a].0 == kk by {
        if kk == k {
            assert(s2[pos].0 == kk);
        } else {
            assert(m.contains_key(kk));
            let b = choose|b: int| 0 <= b < s.len() && s[b].0 == kk;
            if b < pos {
                assert(s2[b].0 == kk);
            } else {
                assert(s2[b + 1].0 == kk);
            }
        }
    }
}

/// The bytes of a name.
pub fn name_bytes_of(s: &String) -> (r: &[u8])
    ensures
        r@ == name_bytes(s@),
{
    s.as_str().as_bytes()
}

/// Inserts `(name, value)` at its place in a strictly sorted list, unless an
/// entry with that name is there already; returns whether it inserted.
pub fn insert_sorted(list: &mut Vec<(String, Vec<u8>)>, name: String, value: Vec<u8>) -> (r: bool)
    requires
        strictly_sorted(entries_view(old(list)@)),
    ensures
        strictly_sorted(entries_view(final(list)@)),
        r == !(exists|i: int| 0 <= i < old(list)@.len() && entries_view(old(list)@)[i].0 == name_bytes(name@)),
        !r ==> final(list)@ == old(list)@,
        r ==> exists|pos: int| 0 <= pos <= old(list)@.len()
            && entries_view(final(list)@) == entries_view(old(list)@).insert(pos, (name_bytes(name@), value@)),
{
    let ghost ev = entries_view(list@);
    let ghost nb = name_bytes(name@);
    let mut i: usize = 0;
    let mut stop = false;
    while i < list.len() && !stop
        invariant
            i <= list@.len(),
            list@ == old(list)@,
            ev == entries_view(list@),
            strictly_sorted(ev),
            nb == name_bytes(name@),
            forall|j: int| 0 <= j < i ==> bytes_lt(#[trigger] ev[j].0, nb),
            stop ==> i < list@.len() && bytes_lt(nb, ev[i as int].0),
        decreases list@.len() - i + (if stop { 0int } else { 1int }),
    {
        let here = name_bytes_of(&list[i].0);
        let nm = name_bytes_of(&name);
        if bytes_equal(here, nm) {
            assert(ev[i as int].0 == nb);
            return false;
        }
        if bytes_less(here, nm) {
            i = i + 1;
        } else {
            proof {
                lemma_bytes_lt_total(ev[i as int].0, nb);
            }
            stop = true;
        }
    }
    proof {
        assert forall|j: int| i <= j < ev.len() implies bytes_lt(nb, #[trigger] ev[j].0) by {
            if j > i {
                lemma_bytes_lt_transitive(nb, ev[i as int].0, ev[j].0);
            }
        }
        assert(!(exists|j: int| 0 <= j < ev.len() && ev[j].0 == nb)) by {
            if exists|j: int| 0 <= j < ev.len() && ev[j].0 == nb {
                let j = choose|j: int| 0 <= j < ev.len() && ev[j].0 == nb;
                lemma_bytes_lt_irreflexive(nb);
            }
        }
    }
    let ghost entry = (name, value);
    list.insert(i, (name, value));
    proof {
        let ev2 = entries_view(list@);
        assert(ev2 =~= ev.insert(i as int, (nb, entry.1@)));
        assert forall|a: int, b: int| 0 <= a < b < ev2.len() implies bytes_lt(#[trigger] ev2[a].0, #[trigger] ev2[b].0) by {
            if a < i && b > i {
                assert(ev2[b] == ev[b - 1]);
                if b - 1 > a {
                    assert(bytes_lt(ev[a].0, ev[b - 1].0));
                }
            } else if a > i {
                assert(bytes_lt(ev[a - 1].0, ev[b - 1].0));
            } else if b < i {
                assert(bytes_lt(ev[a].0, ev[b].0));
            }
        }
    }
    true
}

/// Entries with the same key carry the same payload.
pub open spec fn functional(s: Seq<(Seq<u8>, Seq<u8>)>) -> bool {
    forall|i: int, j: int| 0 <= i < s.len() && 0 <= j < s.len() && #[trigger] s[i].0 == #[trigger] s[j].0 ==> s[i].1 == s[j].1
}

/// The map that a list of entries stands for (for a functional list).
pub open spec fn pairs_map(s: Seq<(Seq<u8>, Seq<u8>)>) -> Map<Seq<u8>, Seq<u8>> {
    Map::new(
        |k: Seq<u8>| exists|i: int| 0 <= i < s.len() && s[i].0 == k,
        |k: Seq<u8>| s[choose|i: int| 0 <= i < s.len() && s[i].0 == k].1,
    )
}

/// The entries of `list` in ascending key order, one per key.
pub fn sort_entries(list: &Vec<(String, Vec<u8>)>) -> (r: Vec<(String, Vec<u8>)>)
    requires
        functional(entries_view(list@)),
    ensures
        canonical(entries_view(r@), pairs_map(entries_view(list@))),
{
    let ghost ev = entries_view(list@);
    let mut out: Vec<(String, Vec<u8>)> = Vec::new();
    let mut i: usize = 0;
    while i < list.len()
        invariant
            i <= list@.len(),
            ev == entries_view(list@),
            functional(ev),
            canonical(entries_view(out@), pairs_map(ev.subrange(0, i as int))),
        decreases list@.len() - i,
    {
        let ghost before = entries_view(out@);
        let ghost m = pairs_map(ev.subrange(0, i as int));
        let ghost e = ev[i as int];
        let ghost m2 = pairs_map(ev.subrange(0, i + 1));
        let name = list[i].0.clone();
        let value = list[i].1.clone();
        assert(value@ =~= list@[i as int].1@);
        let inserted = insert_sorted(&mut out, name, value);
        proof {
            let pre = ev.subrange(0, i as int);
            let post = ev.subrange(0, i + 1);
            assert(post =~= pre.push(e));
            if inserted {
                assert(!m.contains_key(e.0)) by {
                    if m.contains_key(e.0) {
                        let j = choose|j: int| 0 <= j < pre.len() && pre[j].0 == e.0;
                        let a = choose|a: int| 0 <= a < before.len() && before[a].0 == e.0;
                        assert(false);
                    }
                }
                let pos = choose|pos: int| 0 <= pos <= before.len()
                    && entries_view(out@) == before.insert(pos, e);
                lemma_represents_insert(before, m, pos, e.0, e.1);
                assert forall|k: Seq<u8>| m2.contains_key(k) <==> #[trigger] m.insert(e.0, e.1).contains_key(k) by {
                    if m2.contains_key(k) && k != e.0 {
                        let j = choose|j: int| 0 <= j < post.len() && post[j].0 == k;
                        assert(pre[j].0 == k);
                    }
                    if m.contains_key(k) {
                        let j = choose|j: int| 0 <= j < pre.len() && pre[j].0 == k;
                        assert(post[j].0 == k);
                    }
                    if k == e.0 {
                        assert(post[i as int].0 == k);
                    }
                }
                assert forall|k: Seq<u8>| m2.contains_key(k) implies m2[k] == #[trigger] m.insert(e.0, e.1)[k] by {
                    let j = choose|j: int| 0 <= j < post.len() && post[j].0 == k;
                    assert(post[j] == ev[j]);
                    if k != e.0 {
                        let j2 = choose|j2: int| 0 <= j2 < pre.len() && pre[j2].0 == k;
                        assert(pre[j2] == ev[j2]);
                    } else {
                        assert(ev[i as int] == e);
                    }
                }
                assert(m2 =~= m.insert(e.0, e.1));
            } else {
                let a = choose|a: int| 0 <= a < before.len() && before[a].0 == e.0;
                assert(m.contains_key(e.0));
                let j0 = choose|j: int| 0 <= j < pre.len() && pre[j].0 == e.0;
                assert(pre[j0] == ev[j0]);
                assert forall|k: Seq<u8>| m2.contains_key(k) <==> #[trigger] m.contains_key(k) by {
                    if m2.contains_key(k) && k != e.0 {
                        let j = choose|j: int| 0 <= j < post.len() && post[j].0 == k;
                        assert(pre[j].0 == k);
                    }
                    if m.contains_key(k) {
                        let j = choose|j: int| 0 <= j < pre.len() && pre[j].0 == k;
                        assert(post[j].0 == k);
                    }
                }
                assert forall|k: Seq<u8>| m2.contains_key(k) implies m2[k] == #[trigger] m[k] by {
                    let j = choose|j: int| 0 <= j < post.len() && post[j].0 == k;
                    let j2 = choose|j2: int| 0 <= j2 < pre.len() && pre[j2].0 == k;
                    assert(post[j] == ev[j]);
                    assert(pre[j2] == ev[j2]);
                }
                assert(m2 =~= m);
            }
        }
        i = i + 1;
    }
    assert(ev.subrange(0, i as int) =~= ev);
    out
}

/// One entry on the wire: the name, then the payload, each preceded by its
/// length as 8 bytes big-endian.
pub open spec fn entry_bytes(e: (Seq<u8>, Seq<u8>)) -> Seq<u8> {
    u64_be(e.0.len() as u64) + e.0 + u64_be(e.1.len() as u64) + e.1
}

/// The entries on the wire, in list order.
pub open spec fn entries_bytes(s: Seq<(Seq<u8>, Seq<u8>)>) -> Seq<u8>
    decreases s.len(),
{
    if s.len() == 0 {
        seq![]
    } else {
        entries_bytes(s.drop_last()) + entry_bytes(s.last())
    }
}

/// A list on the wire: the entry count as 8 bytes big-endian, then the entries.
pub open spec fn list_bytes(s: Seq<(Seq<u8>, Seq<u8>)>) -> Seq<u8> {
    u64_be(s.len() as u64) + entries_bytes(s)
}

/// The canonical bytes of a list of entries.
pub fn encode_entries(list: &Vec<(String, Vec<u8>)>) -> (r: Vec<u8>)
    ensures
        r@ == list_bytes(entries_view(list@)),
{
    let ghost ev = entries_view(list@);
    let mut out: Vec<u8> = Vec::new();
    push_u64_be(&mut out, list.len() as u64);
    let mut i: usize = 0;
    while i < list.len()
        invariant
            i <= list@.len(),
            ev == entries_view(list@),
            out@ == u64_be(list@.len() as u64) + entries_bytes(ev.subrange(0, i as int)),
        decreases list@.len() - i,
    {
        assert(ev.subrange(0, i + 1).drop_last() =~= ev.subrange(0, i as int));
        let name = name_bytes_of(&list[i].0);
        push_u64_be(&mut out, name.len() as u64);
        extend_bytes(&mut out, name);
        let value = list[i].1.as_slice();
        push_u64_be(&mut out, value.len() as u64);
        extend_bytes(&mut out, value);
        i = i + 1;
        assert(out@ =~= u64_be(list@.len() as u64) + entries_bytes(ev.subrange(0, i as int)));
    }
    assert(ev.subrange(0, i as int) =~= ev);
    out
}

} // verus!
