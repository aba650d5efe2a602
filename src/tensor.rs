//! Tensors as the commitments see them, and their canonical encoding.
//!
//! Elements are held as the IEEE-754 bit patterns of values that were
//! already rounded to three decimal places, so that everything here is
//! integer work: the encoding is byte-exact on every platform.

use vstd::prelude::*;
use crate::bytes::{u32_be, u64_be, u32_le, u64_le, push_u32_be, push_u64_be, push_u32_le,
    push_u64_le};
use crate::digest::{sha256, hash_buffer};

verus! {

/// Element type of a tensor.
#[derive(Clone, Copy, Debug, PartialEq, Eq, Structural)]
pub enum ElemType {
    F32,
    F64,
}

/// The one-byte tag of an element type in the canonical encoding.
pub open spec fn elem_tag(t: ElemType) -> u8 {
    match t {
        ElemType::F32 => 1u8,
        ElemType::F64 => 2u8,
    }
}

/// A tensor as plain values.
pub struct TensorView {
    pub elem_type: ElemType,
    pub shape: Seq<u64>,
    pub data: Seq<u64>,
}

/// Number of elements of a tensor of the given shape.
pub open spec fn shape_size(shape: Seq<u64>) -> nat
    decreases shape.len(),
{
    if shape.len() == 0 {
        1
    } else {
        shape_size(shape.drop_last()) * (shape.last() as nat)
    }
}

/// Shape with positive dimensions, a row-major buffer of the right length,
/// and single-precision elements that fit in 32 bits.
pub open spec fn tensor_valid(t: TensorView) -> bool {
    &&& t.shape.len() <= u32::MAX
    &&& forall|i: int| 0 <= i < t.shape.len() ==> #[trigger] t.shape[i] > 0
    &&& t.data.len() == shape_size(t.shape)
    &&& t.elem_type == ElemType::F32 ==> forall|i: int| 0 <= i < t.data.len() ==> #[trigger] t.data[i] <= u32::MAX
}

/// Each dimension, 8 bytes big-endian.
pub open spec fn dims_bytes(shape: Seq<u64>) -> Seq<u8>
    decreases shape.len(),
{
    if shape.len() == 0 {
        seq![]
    } else {
        dims_bytes(shape.drop_last()) + u64_be(shape.last())
    }
}

/// Each element in its native width, little-endian.
pub open spec fn elems_bytes(t: ElemType, data: Seq<u64>) -> Seq<u8>
    decreases data.len(),
{
    if data.len() == 0 {
        seq![]
    } else {
        elems_bytes(t, data.drop_last()) + match t {
            ElemType::F32 => u32_le(data.last() as u32),
            ElemType::F64 => u64_le(data.last()),
        }
    }
}

/// Canonical bytes of a tensor: type tag, dimension count (4 bytes
/// big-endian), the dimensions, then the elements in row-major order.
pub open spec fn tensor_bytes(t: TensorView) -> Seq<u8> {
    seq![elem_tag(t.elem_type)] + u32_be(t.shape.len() as u32) + dims_bytes(t.shape) + elems_bytes(
        t.elem_type,
        t.data,
    )
}

/// The hash that commits to a tensor.
pub open spec fn tensor_hash_spec(t: TensorView) -> Seq<u8> {
    sha256(tensor_bytes(t))
}

/// A tensor whose elements are bit patterns of rounded values.
#[derive(Clone, Debug)]
pub struct Tensor {
    elem_type: ElemType,
    shape: Vec<u64>,
    data: Vec<u64>,
}

impl View for Tensor {
    type V = TensorView;

    closed spec fn view(&self) -> TensorView {
        TensorView { elem_type: self.elem_type, shape: self.shape@, data: self.data@ }
    }
}

impl Tensor {
    pub open spec fn wf(&self) -> bool {
        tensor_valid(self@)
    }

    /// A tensor from its parts, or `None` if they do not form a valid one.
    pub fn new(elem_type: ElemType, shape: Vec<u64>, data: Vec<u64>) -> (r: Option<Tensor>)
        ensures
            r is Some <==> tensor_valid(TensorView { elem_type, shape: shape@, data: data@ }),
            r is Some ==> r->0@ == (TensorView { elem_type, shape: shape@, data: data@ }),
    {
        let ghost v = TensorView { elem_type, shape: shape@, data: data@ };
        if shape.len() > u32::MAX as usize {
            return None;
        }
        let mut i: usize = 0;
        while i < shape.len()
            invariant
                i <= shape@.len(),
                forall|j: int| 0 <= j < i ==> #[trigger] shape@[j] > 0,
            decreases shape@.len() - i,
        {
            if shape[i] == 0 {
                assert(shape@[i as int] == 0);
                return None;
            }
            i = i + 1;
        }
        let mut size: u64 = 1;
        let dlen = data.len();
        i = 0;
        while i < shape.len()
            invariant
                dlen == data@.len(),
                i <= shape@.len(),
                size == shape_size(shape@.subrange(0, i as int)),
                forall|j: int| 0 <= j < shape@.len() ==> #[trigger] shape@[j] > 0,
            decreases shape@.len() - i,
        {
            let ghost pre = shape@.subrange(0, i as int);
            assert(shape@.subrange(0, i + 1).drop_last() =~= pre);
            match size.checked_mul(shape[i]) {
                Some(s) => {
                    size = s;
                },
                None => {
                    proof {
                        assert(shape_size(shape@.subrange(0, i + 1)) == size as nat * shape@[i as int] as nat);
                        lemma_shape_size_prefix_grows(shape@, i as int + 1);
                        assert(shape_size(shape@) > u64::MAX);
                        assert(data@.len() <= usize::MAX);
                        assert(data@.len() != shape_size(shape@));
                    }
                    return None;
                },
            }
            i = i + 1;
        }
        assert(shape@.subrange(0, i as int) =~= shape@);
        if data.len() as u64 != size {
            return None;
        }
        if elem_type == ElemType::F32 {
            let mut k: usize = 0;
            while k < data.len()
                invariant
                    elem_type == ElemType::F32,
                    k <= data@.len(),
                    forall|j: int| 0 <= j < k ==> #[trigger] data@[j] <= u32::MAX,
                decreases data@.len() - k,
            {
                if data[k] > u32::MAX as u64 {
                    assert(data@[k as int] > u32::MAX);
                    return None;
                }
                k = k + 1;
            }
        }
        Some(Tensor { elem_type, shape, data })
    }

    /// A copy with the same contents.
    pub fn duplicate(&self) -> (r: Tensor)
        ensures
            r@ == self@,
    {
        let shape = self.shape.clone();
        let data = self.data.clone();
        assert(shape@ =~= self.shape@);
        assert(data@ =~= self.data@);
        Tensor { elem_type: self.elem_type, shape, data }
    }

    pub fn elem_type(&self) -> (r: ElemType)
        ensures
            r == self@.elem_type,
    {
        self.elem_type
    }

    pub fn shape(&self) -> (r: &Vec<u64>)
        ensures
            r@ == self@.shape,
    {
        &self.shape
    }

    pub fn data(&self) -> (r: &Vec<u64>)
        ensures
            r@ == self@.data,
    {
        &self.data
    }

    /// The canonical bytes of this tensor.
    pub fn encode(&self) -> (r: Vec<u8>)
        requires
            self.wf(),
        ensures
            r@ == tensor_bytes(self@),
    {
        let mut out: Vec<u8> = Vec::new();
        match self.elem_type {
            ElemType::F32 => out.push(1u8),
            ElemType::F64 => out.push(2u8),
        }
        push_u32_be(&mut out, self.shape.len() as u32);
        let mut i: usize = 0;
        while i < self.shape.len()
            invariant
                i <= self.shape@.len(),
                out@ == seq![elem_tag(self.elem_type)] + u32_be(self.shape@.len() as u32)
                    + dims_bytes(self.shape@.subrange(0, i as int)),
            decreases self.shape@.len() - i,
        {
            assert(self.shape@.subrange(0, i + 1).drop_last() =~= self.shape@.subrange(0, i as int));
            push_u64_be(&mut out, self.shape[i]);
            i = i + 1;
        }
        assert(self.shape@.subrange(0, i as int) =~= self.shape@);
        let ghost head = out@;
        let mut k: usize = 0;
        while k < self.data.len()
            invariant
                self.wf(),
                k <= self.data@.len(),
                out@ == head + elems_bytes(self.elem_type, self.data@.subrange(0, k as int)),
            decreases self.data@.len() - k,
        {
            assert(self.data@.subrange(0, k + 1).drop_last() =~= self.data@.subrange(0, k as int));
            match self.elem_type {
                ElemType::F32 => {
                    assert(self.data@[k as int] <= u32::MAX);
                    push_u32_le(&mut out, self.data[k] as u32);
                },
                ElemType::F64 => push_u64_le(&mut out, self.data[k]),
            }
            k = k + 1;
            assert(out@ =~= head + elems_bytes(self.elem_type, self.data@.subrange(0, k as int)));
        }
        assert(self.data@.subrange(0, k as int) =~= self.data@);
        out
    }
}

/// A dimension product that overflows at a prefix stays too large for a buffer.
proof fn lemma_shape_size_prefix_grows(shape: Seq<u64>, n: int)
    requires
        0 <= n <= shape.len(),
        forall|j: int| 0 <= j < shape.len() ==> #[trigger] shape[j] > 0,
    ensures
        shape_size(shape.subrange(0, n)) <= shape_size(shape),
    decreases shape.len() - n,
{
    if n < shape.len() {
        lemma_shape_size_prefix_grows(shape, n + 1);
        assert(shape.subrange(0, n + 1).drop_last() =~= shape.subrange(0, n));
        let a = shape_size(shape.subrange(0, n));
        let d = shape[n] as nat;
        assert(a <= a * d) by (nonlinear_arith)
            requires
                d >= 1,
        ;
    } else {
        assert(shape.subrange(0, n) =~= shape);
    }
}

/// The hash that commits to a tensor: SHA-256 of its canonical bytes.
pub fn tensor_hash(tensor: &Tensor) -> (r: Vec<u8>)
    requires
        tensor.wf(),
    ensures
        r@ == tensor_hash_spec(tensor@),
        r@.len() == 32,
{
    let bytes = tensor.encode();
    hash_buffer(bytes.as_slice())
}

} // verus!
