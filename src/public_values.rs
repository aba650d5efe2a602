//! The public values of a single-operator proof, bit-exact: model root,
//! leaf-index count (4 bytes little-endian, always 1), the leaf index
//! (8 bytes little-endian), the input-state hash and the output-state hash.

use vstd::prelude::*;
use crate::bytes::{u32_le, u64_le, u32_from_le, u64_from_le, push_u32_le, push_u64_le,
    extend_bytes, copy_range, read_u32_le, read_u64_le, lemma_u32_from_le_round_trip,
    lemma_u32_le_round_trip, lemma_u64_le_round_trip, lemma_u64_from_le_round_trip};

verus! {

/// Length of the public values in bytes.
pub const PUBLIC_VALUES_LEN: usize = 108;

/// What a single-operator proof commits to.
#[derive(Clone, Debug)]
pub struct PublicValues {
    pub model_root: Vec<u8>,
    pub index: u64,
    pub input_hash: Vec<u8>,
    pub output_hash: Vec<u8>,
}

/// The public values as plain values.
pub struct PublicValuesView {
    pub model_root: Seq<u8>,
    pub index: u64,
    pub input_hash: Seq<u8>,
    pub output_hash: Seq<u8>,
}

impl View for PublicValues {
    type V = PublicValuesView;

    open spec fn view(&self) -> PublicValuesView {
        PublicValuesView {
            model_root: self.model_root@,
            index: self.index,
            input_hash: self.input_hash@,
            output_hash: self.output_hash@,
        }
    }
}

/// All three hashes are 32 bytes long.
pub open spec fn pv_valid(v: PublicValuesView) -> bool {
    v.model_root.len() == 32 && v.input_hash.len() == 32 && v.output_hash.len() == 32
}

/// The wire form.
pub open spec fn pv_bytes(v: PublicValuesView) -> Seq<u8> {
    v.model_root + u32_le(1) + u64_le(v.index) + v.input_hash + v.output_hash
}

/// Reading the wire form: `None` unless the length is exact and the count is 1.
pub open spec fn pv_parse(b: Seq<u8>) -> Option<PublicValuesView> {
    if b.len() == 108 && u32_from_le(b.subrange(32, 36)) == 1 {
        Some(
            PublicValuesView {
                model_root: b.subrange(0, 32),
                index: u64_from_le(b.subrange(36, 44)),
                input_hash: b.subrange(44, 76),
                output_hash: b.subrange(76, 108),
            },
        )
    } else {
        None
    }
}

/// The wire form of public values.
pub fn encode_public_values(pv: &PublicValues) -> (r: Vec<u8>)
    ensures
        r@ == pv_bytes(pv@),
{
    let mut out: Vec<u8> = Vec::new();
    extend_bytes(&mut out, pv.model_root.as_slice());
    push_u32_le(&mut out, 1u32);
    push_u64_le(&mut out, pv.index);
    extend_bytes(&mut out, pv.input_hash.as_slice());
    extend_bytes(&mut out, pv.output_hash.as_slice());
    out
}

/// Reads public values; `None` on a buffer of the wrong length or with a
/// leaf-index count other than 1.
pub fn parse_public_values(b: &Vec<u8>) -> (r: Option<PublicValues>)
    ensures
        r is Some <==> pv_parse(b@) is Some,
        r is Some ==> r->0@ == pv_parse(b@)->0,
{
    if b.len() != PUBLIC_VALUES_LEN {
        return None;
    }
    let count = read_u32_le(b.as_slice(), 32);
    if count != 1 {
        return None;
    }
    let model_root = copy_range(b.as_slice(), 0, 32);
    let index = read_u64_le(b.as_slice(), 36);
    let input_hash = copy_range(b.as_slice(), 44, 76);
    let output_hash = copy_range(b.as_slice(), 76, 108);
    Some(PublicValues { model_root, index, input_hash, output_hash })
}

/// Reading the wire form of valid public values gives them back.
pub proof fn lemma_public_values_round_trip(v: PublicValuesView)
    requires
        pv_valid(v),
    ensures
        pv_parse(pv_bytes(v)) == Some(v),
{
    let b = pv_bytes(v);
    lemma_u32_le_round_trip(1);
    lemma_u64_le_round_trip(v.index);
    assert(b.subrange(0, 32) =~= v.model_root);
    assert(b.subrange(32, 36) =~= u32_le(1));
    assert(b.subrange(36, 44) =~= u64_le(v.index));
    assert(b.subrange(44, 76) =~= v.input_hash);
    assert(b.subrange(76, 108) =~= v.output_hash);
}

/// A buffer that reads as public values is their wire form.
pub proof fn lemma_public_values_parse_exact(b: Seq<u8>)
    requires
        pv_parse(b) is Some,
    ensures
        pv_bytes(pv_parse(b)->0) == b,
        pv_valid(pv_parse(b)->0),
{
    lemma_u32_from_le_round_trip(b.subrange(32, 36));
    lemma_u64_from_le_round_trip(b.subrange(36, 44));
    assert(pv_bytes(pv_parse(b)->0) =~= b);
}

} // verus!
