//! The binary Merkle tree over operator leaf hashes.
//!
//! The leaves are padded to the next power of two by repeating the last
//! leaf; an inner node is SHA-256 of its left child followed by its right
//! child. An inclusion proof for one leaf is the sibling hash at every
//! level, bottom up, each 32 bytes.

use vstd::prelude::*;
use crate::bytes::{bytes_equal, copy_range, extend_bytes, hex_of, to_hex};
use crate::digest::{sha256, sha256_collision, hash_buffer};
use crate::node::{Graph, Node, node_hash, node_hash_spec};

verus! {

/// Number of levels above the leaves for `n` leaves.
pub open spec fn tree_depth(n: nat) -> nat
    decreases n,
{
    if n <= 1 {
        0
    } else {
        1 + tree_depth(((n + 1) / 2) as nat)
    }
}

pub open spec fn pow2(d: nat) -> nat
    decreases d,
{
    if d == 0 {
        1
    } else {
        2 * pow2((d - 1) as nat)
    }
}

/// The leaves followed by copies of the last one, up to a power of two.
pub open spec fn padded(leaves: Seq<Seq<u8>>) -> Seq<Seq<u8>> {
    leaves + Seq::new((pow2(tree_depth(leaves.len())) - leaves.len()) as nat, |i: int| leaves.last())
}

/// The level above `l`: the hash of each pair of neighbours.
pub open spec fn parent(l: Seq<Seq<u8>>) -> Seq<Seq<u8>> {
    Seq::new(l.len() / 2, |i: int| sha256(l[2 * i] + l[2 * i + 1]))
}

/// All levels, from `l` up to the single root.
pub open spec fn levels(l: Seq<Seq<u8>>) -> Seq<Seq<Seq<u8>>>
    decreases l.len(),
{
    if l.len() <= 1 {
        seq![l]
    } else {
        seq![l] + levels(parent(l))
    }
}

/// The root above a level whose length is a power of two.
pub open spec fn root_of(l: Seq<Seq<u8>>) -> Seq<u8>
    decreases l.len(),
{
    if l.len() <= 1 {
        l[0]
    } else {
        root_of(parent(l))
    }
}

/// The root of the tree over `leaves`.
pub open spec fn merkle_root(leaves: Seq<Seq<u8>>) -> Seq<u8> {
    root_of(padded(leaves))
}

/// The sibling hashes of position `idx`, bottom up.
pub open spec fn proof_path(l: Seq<Seq<u8>>, idx: nat) -> Seq<Seq<u8>>
    decreases l.len(),
{
    if l.len() <= 1 {
        seq![]
    } else {
        seq![if idx % 2 == 0 { l[idx + 1int] } else { l[idx - 1int] }] + proof_path(parent(l), idx / 2)
    }
}

/// Hashes, one after another.
pub open spec fn concat_all(p: Seq<Seq<u8>>) -> Seq<u8>
    decreases p.len(),
{
    if p.len() == 0 {
        seq![]
    } else {
        p[0] + concat_all(p.drop_first())
    }
}

/// The 32-byte pieces of a proof buffer.
pub open spec fn split32(b: Seq<u8>) -> Seq<Seq<u8>> {
    Seq::new(b.len() / 32, |k: int| b.subrange(32 * k, 32 * k + 32))
}

/// One step up: the node above `h` at position `idx` with sibling `sib`.
pub open spec fn combine(h: Seq<u8>, idx: nat, sib: Seq<u8>) -> Seq<u8> {
    if idx % 2 == 0 {
        sha256(h + sib)
    } else {
        sha256(sib + h)
    }
}

/// The root reached from `h` at position `idx` along the siblings `p`.
pub open spec fn path_root(h: Seq<u8>, idx: nat, p: Seq<Seq<u8>>) -> Seq<u8>
    decreases p.len(),
{
    if p.len() == 0 {
        h
    } else {
        path_root(combine(h, idx, p[0]), idx / 2, p.drop_first())
    }
}

/// Whether `proof` shows `leaf` at position `idx` of a tree of `n` leaves with root `root`.
pub open spec fn verify_spec(root: Seq<u8>, idx: nat, leaf: Seq<u8>, n: nat, proof: Seq<u8>) -> bool {
    &&& idx < n
    &&& proof.len() == 32 * tree_depth(n)
    &&& path_root(leaf, idx, split32(proof)) == root
}

pub proof fn lemma_pow2_depth(n: nat)
    ensures
        n <= pow2(tree_depth(n)),
        pow2(tree_depth(n)) >= 1,
    decreases n,
{
    if n > 1 {
        lemma_pow2_depth(((n + 1) / 2) as nat);
    }
}

proof fn lemma_parent_pow2(l: Seq<Seq<u8>>, d: nat)
    requires
        l.len() == pow2(d),
        d > 0,
    ensures
        parent(l).len() == pow2((d - 1) as nat),
{
}

proof fn lemma_pow2_len(l: Seq<Seq<u8>>, d: nat)
    requires
        l.len() == pow2(d),
    ensures
        l.len() <= 1 <==> d == 0,
    decreases d,
{
    if d > 0 {
        assert(pow2((d - 1) as nat) >= 1) by {
            lemma_pow2_pos((d - 1) as nat);
        }
    }
}

proof fn lemma_pow2_pos(d: nat)
    ensures
        pow2(d) >= 1,
    decreases d,
{
    if d > 0 {
        lemma_pow2_pos((d - 1) as nat);
    }
}

/// Walking up from a leaf along its proof path reaches the root.
proof fn lemma_path_complete(l: Seq<Seq<u8>>, d: nat, idx: nat)
    requires
        l.len() == pow2(d),
        idx < l.len(),
    ensures
        proof_path(l, idx).len() == d,
        path_root(l[idx as int], idx, proof_path(l, idx)) == root_of(l),
    decreases d,
{
    lemma_pow2_len(l, d);
    if d > 0 {
        lemma_parent_pow2(l, d);
        let p = parent(l);
        lemma_path_complete(p, (d - 1) as nat, idx / 2);
        let path = proof_path(l, idx);
        assert(path.drop_first() =~= proof_path(p, idx / 2));
        if idx % 2 == 0 {
            assert(combine(l[idx as int], idx, path[0]) == p[(idx / 2) as int]);
        } else {
            assert(2 * (idx / 2) == idx - 1);
            assert(combine(l[idx as int], idx, path[0]) == p[(idx / 2) as int]);
        }
    }
}

/// Two different starting hashes reach the same root only through a collision.
proof fn lemma_path_sound(h1: Seq<u8>, h2: Seq<u8>, idx: nat, p: Seq<Seq<u8>>)
    requires
        h1 != h2,
        path_root(h1, idx, p) == path_root(h2, idx, p),
    ensures
        exists|a: Seq<u8>, b: Seq<u8>| sha256_collision(a, b),
    decreases p.len(),
{
    if p.len() > 0 {
        let c1 = combine(h1, idx, p[0]);
        let c2 = combine(h2, idx, p[0]);
        if c1 == c2 {
            if idx % 2 == 0 {
                let a = h1 + p[0];
                let b = h2 + p[0];
                if a == b {
                    assert(a.len() == b.len());
                    assert(h1.len() == h2.len());
                    assert(h1 =~= a.subrange(0, h1.len() as int));
                    assert(h2 =~= b.subrange(0, h2.len() as int));
                }
                assert(sha256_collision(a, b));
            } else {
                let a = p[0] + h1;
                let b = p[0] + h2;
                if a == b {
                    assert(h1 =~= a.subrange(p[0].len() as int, a.len() as int));
                    assert(h2 =~= b.subrange(p[0].len() as int, b.len() as int));
                }
                assert(sha256_collision(a, b));
            }
        } else {
            lemma_path_sound(c1, c2, idx / 2, p.drop_first());
        }
    }
}

/// Cutting a concatenation of 32-byte hashes gives the hashes back.
proof fn lemma_split_concat(p: Seq<Seq<u8>>)
    requires
        forall|k: int| 0 <= k < p.len() ==> (#[trigger] p[k]).len() == 32,
    ensures
        concat_all(p).len() == 32 * p.len(),
        split32(concat_all(p)) == p,
    decreases p.len(),
{
    if p.len() > 0 {
        let t = p.drop_first();
        lemma_split_concat(t);
        let c = concat_all(p);
        assert(c == p[0] + concat_all(t));
        let s = split32(c);
        assert forall|k: int| 0 <= k < p.len() implies #[trigger] s[k] == p[k] by {
            if k == 0 {
                assert(s[0] =~= p[0]);
            } else {
                assert(split32(concat_all(t))[k - 1] == t[k - 1]);
                assert(s[k] =~= concat_all(t).subrange(32 * (k - 1), 32 * (k - 1) + 32));
            }
        }
        assert(s =~= p);
    } else {
        assert(split32(concat_all(p)) =~= p);
    }
}

proof fn lemma_pow2_even(d: nat)
    requires
        d > 0,
    ensures
        pow2(d) % 2 == 0,
{
}

/// Padding at most doubles the number of leaves.
proof fn lemma_pad_bound(n: nat)
    requires
        n >= 1,
    ensures
        pow2(tree_depth(n)) < 2 * n,
    decreases n,
{
    if n > 1 {
        let m = ((n + 1) / 2) as nat;
        lemma_pad_bound(m);
        if tree_depth(m) > 0 {
            lemma_pow2_even(tree_depth(m));
        }
    }
}

/// The top level holds the root alone.
proof fn lemma_levels_last(l: Seq<Seq<u8>>, d: nat)
    requires
        l.len() == pow2(d),
    ensures
        levels(l).len() == d + 1,
        levels(l).last().len() == 1,
        levels(l).last()[0] == root_of(l),
        levels(l)[0] == l,
        forall|k: int| 0 <= k < levels(l).len() ==> (#[trigger] levels(l)[k]).len() == pow2((d - k) as nat),
    decreases d,
{
    lemma_pow2_len(l, d);
    if d > 0 {
        lemma_parent_pow2(l, d);
        lemma_levels_last(parent(l), (d - 1) as nat);
        assert forall|k: int| 0 <= k < levels(l).len() implies (#[trigger] levels(l)[k]).len() == pow2((d - k) as nat) by {
            if k > 0 {
                assert(levels(l)[k] == levels(parent(l))[k - 1]);
            }
        }
    }
}

/// The sibling hashes of a leaf are nodes of the tree, hence 32 bytes each.
proof fn lemma_path_hashes(l: Seq<Seq<u8>>, d: nat, idx: nat)
    requires
        l.len() == pow2(d),
        idx < l.len(),
        all_hashes(levels(l)),
    ensures
        forall|k: int| 0 <= k < proof_path(l, idx).len() ==> (#[trigger] proof_path(l, idx)[k]).len() == 32,
    decreases d,
{
    lemma_pow2_len(l, d);
    if d > 0 {
        lemma_parent_pow2(l, d);
        let p = parent(l);
        assert(all_hashes(levels(p))) by {
            assert forall|h: int, i: int| 0 <= h < levels(p).len() && 0 <= i < levels(p)[h].len()
                implies (#[trigger] levels(p)[h][i]).len() == 32 by {
                assert(levels(p)[h] == levels(l)[h + 1]);
            }
        }
        lemma_path_hashes(p, (d - 1) as nat, idx / 2);
        let path = proof_path(l, idx);
        assert forall|k: int| 0 <= k < path.len() implies (#[trigger] path[k]).len() == 32 by {
            if k == 0 {
                assert(levels(l)[0] == l);
            } else {
                assert(path[k] == proof_path(p, idx / 2)[k - 1]);
            }
        }
    }
}

/// Every node of every level is 32 bytes long.
pub open spec fn all_hashes(ls: Seq<Seq<Seq<u8>>>) -> bool {
    forall|h: int, i: int| 0 <= h < ls.len() && 0 <= i < ls[h].len() ==> (#[trigger] ls[h][i]).len() == 32
}

/// A Merkle tree over the leaf hashes of a model's operators.
pub struct ModelMerkleTree {
    leaves: Vec<Vec<u8>>,
    layers: Vec<Vec<Vec<u8>>>,
}

pub open spec fn hashes_view(v: Seq<Vec<u8>>) -> Seq<Seq<u8>> {
    v.map_values(|h: Vec<u8>| h@)
}

pub open spec fn layers_view(v: Seq<Vec<Vec<u8>>>) -> Seq<Seq<Seq<u8>>> {
    v.map_values(|l: Vec<Vec<u8>>| hashes_view(l@))
}

impl ModelMerkleTree {
    /// The leaf hashes, unpadded, in operator order.
    pub closed spec fn leaves_spec(&self) -> Seq<Seq<u8>> {
        hashes_view(self.leaves@)
    }

    pub closed spec fn wf(&self) -> bool {
        &&& self.leaves@.len() >= 1
        &&& forall|i: int| 0 <= i < self.leaves@.len() ==> (#[trigger] self.leaves@[i])@.len() == 32
        &&& layers_view(self.layers@) == levels(padded(self.leaves_spec()))
        &&& all_hashes(layers_view(self.layers@))
    }

    /// The root of this tree.
    pub open spec fn root_spec(&self) -> Seq<u8> {
        merkle_root(self.leaves_spec())
    }

    /// The proof buffer for the leaf at `idx`.
    pub open spec fn proof_spec(&self, idx: nat) -> Seq<u8> {
        concat_all(proof_path(padded(self.leaves_spec()), idx))
    }

    /// The tree over the given leaf hashes.
    pub fn from_leaves(leaves: Vec<Vec<u8>>) -> (r: ModelMerkleTree)
        requires
            1 <= leaves@.len() < 0x8000_0000,
            forall|i: int| 0 <= i < leaves@.len() ==> (#[trigger] leaves@[i])@.len() == 32,
        ensures
            r.wf(),
            r.leaves_spec() == hashes_view(leaves@),
    {
        let n = leaves.len();
        let ghost lv = hashes_view(leaves@);
        // Length after padding: the next power of two.
        let mut m: usize = n;
        let mut p: usize = 1;
        let ghost mut d: nat = 0;
        proof {
            lemma_pad_bound(n as nat);
        }
        while m > 1
            invariant
                1 <= m <= n,
                n < 0x8000_0000,
                p == pow2(d),
                pow2(tree_depth(n as nat)) == p * pow2(tree_depth(m as nat)),
                pow2(tree_depth(n as nat)) < 2 * n,
            decreases m,
        {
            proof {
                let t = tree_depth(((m + 1) / 2) as nat);
                lemma_pow2_pos(t);
                assert(pow2(tree_depth(m as nat)) == 2 * pow2(t));
                assert(p * pow2(tree_depth(m as nat)) == (2 * p) * pow2(t)) by (nonlinear_arith)
                    requires
                        pow2(tree_depth(m as nat)) == 2 * pow2(t),
                ;
                assert(2 * p <= (2 * p) * pow2(t)) by (nonlinear_arith)
                    requires
                        pow2(t) >= 1,
                ;
            }
            m = (m + 1) / 2;
            p = p * 2;
            proof {
                d = d + 1;
            }
        }
        proof {
            lemma_pow2_depth(n as nat);
            assert(m == 1);
            assert(tree_depth(m as nat) == 0);
            assert(pow2(0) == 1);
            assert(pow2(tree_depth(m as nat)) == 1);
            assert(p * 1 == p);
        }
        let mut level: Vec<Vec<u8>> = Vec::new();
        let mut i: usize = 0;
        while i < p
            invariant
                n == leaves@.len(),
                lv == hashes_view(leaves@),
                1 <= n,
                p == pow2(tree_depth(n as nat)),
                n <= p,
                i <= p,
                forall|k: int| 0 <= k < leaves@.len() ==> (#[trigger] leaves@[k])@.len() == 32,
                hashes_view(level@) =~= padded(lv).subrange(0, i as int),
                forall|k: int| 0 <= k < level@.len() ==> (#[trigger] level@[k])@.len() == 32,
            decreases p - i,
        {
            let src = if i < n { i } else { n - 1 };
            let h = leaves[src].clone();
            assert(h@ =~= leaves@[src as int]@);
            let ghost prev = level@;
            level.push(h);
            proof {
                assert(padded(lv)[i as int] == lv[src as int]);
                assert(hashes_view(level@) =~= hashes_view(prev).push(h@));
                assert(padded(lv).subrange(0, i + 1) =~= padded(lv).subrange(0, i as int).push(padded(lv)[i as int]));
            }
            i = i + 1;
        }
        proof {
            lemma_pow2_depth(n as nat);
            assert(padded(lv).len() == p);
            assert(hashes_view(level@) =~= padded(lv));
        }
        let ghost top = padded(lv);
        let ghost dd = tree_depth(n as nat);
        proof {
            lemma_levels_last(top, dd);
        }
        let mut layers: Vec<Vec<Vec<u8>>> = Vec::new();
        let mut cur = level;
        let ghost mut k: nat = 0;
        while cur.len() > 1
            invariant
                k <= dd,
                hashes_view(cur@) == levels(top)[k as int],
                hashes_view(cur@).len() == pow2((dd - k) as nat),
                layers_view(layers@) == levels(top).subrange(0, k as int),
                forall|j: int| 0 <= j < cur@.len() ==> (#[trigger] cur@[j])@.len() == 32,
                all_hashes(layers_view(layers@)),
                levels(top).len() == dd + 1,
                forall|j: int| 0 <= j < levels(top).len() ==> (#[trigger] levels(top)[j]).len() == pow2((dd - j) as nat),
                top.len() == pow2(dd),
            decreases cur@.len(),
        {
            proof {
                lemma_pow2_len(hashes_view(cur@), (dd - k) as nat);
                lemma_pow2_even((dd - k) as nat);
                lemma_levels_tail(top, dd, k);
            }
            let next = parent_level(&cur);
            let ghost prev = layers@;
            layers.push(cur);
            proof {
                assert(layers_view(layers@) =~= layers_view(prev).push(hashes_view(cur@)));
                assert(levels(top).subrange(0, k + 1int) =~= levels(top).subrange(0, k as int).push(levels(top)[k as int]));
                k = k + 1;
            }
            cur = next;
        }
        proof {
            lemma_pow2_len(hashes_view(cur@), (dd - k) as nat);
            if k < dd {
                lemma_pow2_pos((dd - k - 1) as nat);
            }
            assert(k == dd);
        }
        let ghost prev = layers@;
        layers.push(cur);
        proof {
            assert(layers_view(layers@) =~= layers_view(prev).push(hashes_view(cur@)));
            assert(levels(top).subrange(0, k + 1int) =~= levels(top));
            assert(layers_view(layers@) =~= levels(top));
        }
        let r = ModelMerkleTree { leaves, layers };
        proof {
            assert(r.leaves_spec() == lv);
        }
        r
    }
}

impl ModelMerkleTree {
    /// The tree whose leaves are the operator leaf hashes of `nodes` in `graph`.
    pub fn new(nodes: &Vec<Node>, graph: &Graph) -> (r: ModelMerkleTree)
        requires
            1 <= nodes@.len() < 0x8000_0000,
            forall|i: int| 0 <= i < nodes@.len() ==> (#[trigger] nodes@[i]).wf(),
            graph.initializers.wf(),
        ensures
            r.wf(),
            r.leaves_spec().len() == nodes@.len(),
            forall|i: int| 0 <= i < nodes@.len() ==> #[trigger] r.leaves_spec()[i] == node_hash_spec(
                nodes@[i],
                graph.initializers.view(),
            ),
    {
        let mut leaves: Vec<Vec<u8>> = Vec::new();
        let mut i: usize = 0;
        while i < nodes.len()
            invariant
                i <= nodes@.len(),
                graph.initializers.wf(),
                forall|j: int| 0 <= j < nodes@.len() ==> (#[trigger] nodes@[j]).wf(),
                leaves@.len() == i,
                forall|j: int| 0 <= j < i ==> (#[trigger] leaves@[j])@ == node_hash_spec(
                    nodes@[j],
                    graph.initializers.view(),
                ),
                forall|j: int| 0 <= j < i ==> (#[trigger] leaves@[j])@.len() == 32,
            decreases nodes@.len() - i,
        {
            let h = node_hash(&nodes[i], graph);
            leaves.push(h);
            i = i + 1;
        }
        let ghost lv = leaves@;
        let r = ModelMerkleTree::from_leaves(leaves);
        proof {
            assert forall|j: int| 0 <= j < nodes@.len() implies #[trigger] r.leaves_spec()[j] == node_hash_spec(
                nodes@[j],
                graph.initializers.view(),
            ) by {
                assert(hashes_view(lv)[j] == lv[j]@);
            }
        }
        r
    }

    /// Number of leaves before padding: the number of operators.
    pub fn total_leaves(&self) -> (r: usize)
        requires
            self.wf(),
        ensures
            r == self.leaves_spec().len(),
    {
        self.leaves.len()
    }

    /// The leaf hashes at the given positions.
    pub fn leaves_hashes(&self, indices: &Vec<usize>) -> (r: Vec<Vec<u8>>)
        requires
            self.wf(),
            forall|i: int| 0 <= i < indices@.len() ==> #[trigger] indices@[i] < self.leaves_spec().len(),
        ensures
            r@.len() == indices@.len(),
            forall|i: int| 0 <= i < indices@.len() ==> (#[trigger] r@[i])@ == self.leaves_spec()[indices@[i] as int],
    {
        let mut out: Vec<Vec<u8>> = Vec::new();
        let mut i: usize = 0;
        while i < indices.len()
            invariant
                self.wf(),
                i <= indices@.len(),
                forall|j: int| 0 <= j < indices@.len() ==> #[trigger] indices@[j] < self.leaves_spec().len(),
                out@.len() == i,
                forall|j: int| 0 <= j < i ==> (#[trigger] out@[j])@ == self.leaves_spec()[indices@[j] as int],
            decreases indices@.len() - i,
        {
            let h = self.leaves[indices[i]].clone();
            assert(h@ =~= self.leaves_spec()[indices@[i as int] as int]);
            out.push(h);
            i = i + 1;
        }
        out
    }

    /// The root hash.
    pub fn root(&self) -> (r: Vec<u8>)
        requires
            self.wf(),
        ensures
            r@ == self.root_spec(),
            r@.len() == 32,
    {
        let ghost top = padded(self.leaves_spec());
        proof {
            lemma_pow2_depth(self.leaves_spec().len());
            lemma_levels_last(top, tree_depth(self.leaves_spec().len()));
        }
        let last = self.layers.len() - 1;
        let h = self.layers[last][0].clone();
        proof {
            assert(layers_view(self.layers@)[last as int] == levels(top).last());
            assert(hashes_view(self.layers@[last as int]@)[0] == self.layers@[last as int]@[0]@);
            assert(h@ =~= self.layers@[last as int]@[0]@);
        }
        h
    }

    /// The root hash as lower-case hexadecimal text.
    pub fn root_hash(&self) -> (r: String)
        requires
            self.wf(),
        ensures
            r@ == hex_of(self.root_spec()),
    {
        let root = self.root();
        to_hex(root.as_slice())
    }

    /// The inclusion proof for one leaf: its sibling hashes bottom up.
    pub fn prove(&self, indices: &Vec<usize>) -> (r: Vec<u8>)
        requires
            self.wf(),
            indices@.len() == 1,
            indices@[0] < self.leaves_spec().len(),
        ensures
            r@ == self.proof_spec(indices@[0] as nat),
    {
        let ghost top = padded(self.leaves_spec());
        let ghost dd = tree_depth(self.leaves_spec().len());
        let ghost lv = layers_view(self.layers@);
        proof {
            lemma_pow2_depth(self.leaves_spec().len());
            lemma_levels_last(top, dd);
        }
        let idx0 = indices[0];
        let mut idx = idx0;
        let mut out: Vec<u8> = Vec::new();
        let mut h: usize = 0;
        let nl = self.layers.len();
        while h + 1 < nl
            invariant
                nl == self.layers@.len(),
                self.wf(),
                lv == layers_view(self.layers@),
                lv == levels(top),
                lv.len() == dd + 1,
                self.layers@.len() == dd + 1,
                top.len() == pow2(dd),
                forall|k: int| 0 <= k < lv.len() ==> (#[trigger] lv[k]).len() == pow2((dd - k) as nat),
                h <= dd,
                idx < lv[h as int].len(),
                out@ + concat_all(proof_path(lv[h as int], idx as nat)) == concat_all(proof_path(top, idx0 as nat)),
            decreases dd - h,
        {
            let ghost l = lv[h as int];
            proof {
                lemma_levels_tail(top, dd, h as nat);
                lemma_path_step(l, (dd - h) as nat, idx as nat);
            }
            let sib = if idx % 2 == 0 { idx + 1 } else { idx - 1 };
            let layer = &self.layers[h];
            assert(hashes_view(layer@)[sib as int] == layer@[sib as int]@);
            let ghost before = out@;
            extend_bytes(&mut out, layer[sib].as_slice());
            proof {
                assert(out@ + concat_all(proof_path(lv[h + 1], (idx / 2) as nat)) =~= before + concat_all(proof_path(l, idx as nat)));
            }
            idx = idx / 2;
            h = h + 1;
        }
        proof {
            lemma_pow2_len(lv[h as int], (dd - h) as nat);
            assert(proof_path(lv[h as int], idx as nat) =~= Seq::<Seq<u8>>::empty());
            assert(out@ + concat_all(Seq::<Seq<u8>>::empty()) =~= out@);
        }
        out
    }
}

/// Whether `proof` shows the single leaf hash in `leaf_hashes` at the single
/// position in `indices` of a tree of `total_leaves` leaves with root `root`.
/// Malformed input (wrong counts, an index out of range, a proof of the wrong
/// length) gives `false`.
pub fn verify(
    root: &Vec<u8>,
    indices: &Vec<usize>,
    leaf_hashes: &Vec<Vec<u8>>,
    total_leaves: usize,
    proof: &Vec<u8>,
) -> (r: bool)
    ensures
        r == (indices@.len() == 1 && leaf_hashes@.len() == 1 && verify_spec(
            root@,
            indices@[0] as nat,
            leaf_hashes@[0]@,
            total_leaves as nat,
            proof@,
        )),
{
    if indices.len() != 1 || leaf_hashes.len() != 1 {
        return false;
    }
    let idx0 = indices[0];
    if idx0 >= total_leaves {
        return false;
    }
    let mut m: usize = total_leaves;
    let mut d: usize = 0;
    while m > 1
        invariant
            1 <= m <= total_leaves,
            d <= total_leaves - m,
            tree_depth(total_leaves as nat) == d + tree_depth(m as nat),
        decreases m,
    {
        m = m - m / 2;
        d = d + 1;
    }
    if proof.len() % 32 != 0 || proof.len() / 32 != d {
        return false;
    }
    let ghost parts = split32(proof@);
    let mut cur = leaf_hashes[0].clone();
    assert(cur@ =~= leaf_hashes@[0]@);
    let mut idx = idx0;
    let mut k: usize = 0;
    assert(parts.skip(0) =~= parts);
    let plen = proof.len();
    while k < d
        invariant
            plen == proof@.len(),
            leaf_hashes@.len() == 1,
            d == proof@.len() / 32,
            proof@.len() % 32 == 0,
            parts == split32(proof@),
            k <= d,
            path_root(leaf_hashes@[0]@, idx0 as nat, parts) == path_root(cur@, idx as nat, parts.skip(k as int)),
        decreases d - k,
    {
        assert(32 * k + 32 <= plen) by (nonlinear_arith)
            requires
                k < d,
                d == plen / 32,
        ;
        let sib = copy_range(proof.as_slice(), 32 * k, 32 * k + 32);
        assert(sib@ == parts[k as int]);
        let mut buf: Vec<u8> = Vec::new();
        if idx % 2 == 0 {
            extend_bytes(&mut buf, cur.as_slice());
            extend_bytes(&mut buf, sib.as_slice());
        } else {
            extend_bytes(&mut buf, sib.as_slice());
            extend_bytes(&mut buf, cur.as_slice());
        }
        let next = hash_buffer(buf.as_slice());
        proof {
            assert(next@ == combine(cur@, idx as nat, parts[k as int]));
            assert(parts.skip(k as int).drop_first() =~= parts.skip(k + 1));
            assert(parts.skip(k as int)[0] == parts[k as int]);
        }
        cur = next;
        idx = idx / 2;
        k = k + 1;
    }
    assert(parts.skip(k as int) =~= Seq::<Seq<u8>>::empty());
    bytes_equal(cur.as_slice(), root.as_slice())
}

/// Merkle soundness. The proof that the tree hands out for a leaf verifies
/// against the tree's root; a proof that verifies a different hash at that
/// position exhibits a SHA-256 collision.
pub proof fn lemma_merkle_soundness(t: &ModelMerkleTree, idx: nat, other: Seq<u8>)
    requires
        t.wf(),
        idx < t.leaves_spec().len(),
    ensures
        verify_spec(t.root_spec(), idx, t.leaves_spec()[idx as int], t.leaves_spec().len(), t.proof_spec(idx)),
        other != t.leaves_spec()[idx as int] && verify_spec(
            t.root_spec(),
            idx,
            other,
            t.leaves_spec().len(),
            t.proof_spec(idx),
        ) ==> exists|a: Seq<u8>, b: Seq<u8>| sha256_collision(a, b),
{
    let n = t.leaves_spec().len();
    let top = padded(t.leaves_spec());
    let dd = tree_depth(n);
    lemma_pow2_depth(n);
    lemma_path_complete(top, dd, idx);
    lemma_levels_last(top, dd);
    lemma_path_hashes(top, dd, idx);
    let path = proof_path(top, idx);
    lemma_split_concat(path);
    assert(top[idx as int] == t.leaves_spec()[idx as int]);
    if other != t.leaves_spec()[idx as int] && verify_spec(t.root_spec(), idx, other, n, t.proof_spec(idx)) {
        lemma_path_sound(other, t.leaves_spec()[idx as int], idx, path);
    }
}

/// One level of a proof path.
proof fn lemma_path_step(l: Seq<Seq<u8>>, e: nat, idx: nat)
    requires
        l.len() == pow2(e),
        e > 0,
        idx < l.len(),
    ensures
        idx / 2 < parent(l).len(),
        parent(l).len() == pow2((e - 1) as nat),
        (idx % 2 == 0 ==> idx + 1 < l.len()),
        concat_all(proof_path(l, idx)) == (if idx % 2 == 0 { l[idx + 1int] } else { l[idx - 1int] })
            + concat_all(proof_path(parent(l), idx / 2)),
{
    lemma_pow2_len(l, e);
    lemma_pow2_even(e);
    lemma_parent_pow2(l, e);
    let path = proof_path(l, idx);
    assert(path.drop_first() =~= proof_path(parent(l), idx / 2));
}

/// The level at `k` has as parent the level at `k + 1`.
proof fn lemma_levels_tail(l: Seq<Seq<u8>>, d: nat, k: nat)
    requires
        l.len() == pow2(d),
        k < d,
    ensures
        levels(l)[k + 1int] == parent(levels(l)[k as int]),
    decreases k,
{
    lemma_pow2_len(l, d);
    lemma_parent_pow2(l, d);
    lemma_levels_last(l, d);
    lemma_levels_last(parent(l), (d - 1) as nat);
    assert(levels(l) == seq![l] + levels(parent(l)));
    if k > 0 {
        lemma_levels_tail(parent(l), (d - 1) as nat, (k - 1) as nat);
        assert(levels(l)[k as int] == levels(parent(l))[k - 1]);
        assert(levels(l)[k + 1int] == levels(parent(l))[k as int]);
    } else {
        lemma_pow2_len(parent(l), (d - 1) as nat);
        assert(levels(l)[1] == levels(parent(l))[0]);
    }
}

/// The level above `l`, computed.
fn parent_level(l: &Vec<Vec<u8>>) -> (r: Vec<Vec<u8>>)
    requires
        l@.len() % 2 == 0,
        forall|j: int| 0 <= j < l@.len() ==> (#[trigger] l@[j])@.len() == 32,
    ensures
        hashes_view(r@) == parent(hashes_view(l@)),
        forall|j: int| 0 <= j < r@.len() ==> (#[trigger] r@[j])@.len() == 32,
{
    let ghost lv = hashes_view(l@);
    let mut out: Vec<Vec<u8>> = Vec::new();
    let len = l.len();
    let half = len / 2;
    let mut i: usize = 0;
    while i < half
        invariant
            len == l@.len(),
            half == l@.len() / 2,
            l@.len() % 2 == 0,
            lv == hashes_view(l@),
            i <= half,
            hashes_view(out@) =~= parent(lv).subrange(0, i as int),
            forall|j: int| 0 <= j < out@.len() ==> (#[trigger] out@[j])@.len() == 32,
        decreases half - i,
    {
        assert(2 * i + 1 < l@.len());
        let mut buf: Vec<u8> = Vec::new();
        extend_bytes(&mut buf, l[2 * i].as_slice());
        extend_bytes(&mut buf, l[2 * i + 1].as_slice());
        assert(buf@ =~= lv[2 * i as int] + lv[2 * i + 1]);
        let h = hash_buffer(buf.as_slice());
        let ghost prev = out@;
        out.push(h);
        proof {
            assert(parent(lv).subrange(0, i + 1) =~= parent(lv).subrange(0, i as int).push(parent(lv)[i as int]));
            assert(out@ == prev.push(h));
        }
        i = i + 1;
    }
    assert(hashes_view(out@) =~= parent(lv));
    out
}

} // verus!
