//! Placeholder inputs for a model: which declared graph inputs need a
//! value, and the concrete size of each symbolic dimension.

use vstd::prelude::*;
use vstd::string::StringExecFns;
use crate::keyed::name_bytes;
use crate::tensor_map::TensorMap;

verus! {

/// A dimension of a declared input: a fixed size or a named parameter.
#[derive(Clone, Debug)]
pub enum Dim {
    Value(i64),
    Param(String),
}

/// The size given to a named dimension parameter, for the parameters the
/// supported models use.
pub open spec fn dim_param_spec(p: Seq<char>) -> Option<usize> {
    if p == "batch_size"@ {
        Some(1)
    } else if p == "decoder_sequence_length"@ {
        Some(2)
    } else if p == "encoder_sequence_length / 2"@ {
        Some(1)
    } else if p == "sequence_length"@ {
        Some(32)
    } else if p == "encoder_sequence_length"@ {
        Some(2)
    } else {
        None
    }
}

/// The size of a named dimension parameter, if it is a supported one.
pub fn dim_param_value(p: &String) -> (r: Option<usize>)
    ensures
        r == dim_param_spec(p@),
{
    if *p == String::from_str("batch_size") {
        Some(1)
    } else if *p == String::from_str("decoder_sequence_length") {
        Some(2)
    } else if *p == String::from_str("encoder_sequence_length / 2") {
        Some(1)
    } else if *p == String::from_str("sequence_length") {
        Some(32)
    } else if *p == String::from_str("encoder_sequence_length") {
        Some(2)
    } else {
        None
    }
}

/// The size of one dimension; a negative size has none.
pub open spec fn dim_spec(d: Dim) -> Option<usize> {
    match d {
        Dim::Value(v) => if 0 <= v <= usize::MAX {
            Some(v as usize)
        } else {
            None
        },
        Dim::Param(p) => dim_param_spec(p@),
    }
}

/// The concrete shape of a declared input, or the position of the first
/// dimension whose parameter is not supported.
pub fn input_shape(dims: &Vec<Dim>) -> (r: Result<Vec<usize>, usize>)
    ensures
        r is Ok <==> forall|i: int| 0 <= i < dims@.len() ==> dim_spec(#[trigger] dims@[i]) is Some,
        r is Ok ==> r->Ok_0@.len() == dims@.len() && forall|i: int| 0 <= i < dims@.len() ==> Some(
            #[trigger] r->Ok_0@[i],
        ) == dim_spec(dims@[i]),
        r is Err ==> r->Err_0 < dims@.len() && dim_spec(dims@[r->Err_0 as int]) is None,
{
    let mut out: Vec<usize> = Vec::new();
    let mut i: usize = 0;
    while i < dims.len()
        invariant
            i <= dims@.len(),
            out@.len() == i,
            forall|j: int| 0 <= j < i ==> Some(#[trigger] out@[j]) == dim_spec(dims@[j]),
        decreases dims@.len() - i,
    {
        let size = match &dims[i] {
            Dim::Value(v) => if *v >= 0 && (*v as u64) <= usize::MAX as u64 {
                Some(*v as usize)
            } else {
                None
            },
            Dim::Param(p) => dim_param_value(p),
        };
        match size {
            Some(s) => out.push(s),
            None => {
                return Err(i);
            },
        }
        i = i + 1;
    }
    assert forall|j: int| 0 <= j < dims@.len() implies dim_spec(#[trigger] dims@[j]) is Some by {
        assert(Some(out@[j]) == dim_spec(dims@[j]));
    }
    Ok(out)
}

/// The declared graph inputs that are not initializers: those the caller
/// must supply, in declared order.
pub fn inputs_to_supply(declared: &Vec<String>, initializers: &TensorMap) -> (r: Vec<String>)
    requires
        initializers.wf(),
    ensures
        r@ == declared@.filter(|s: String| !initializers.view().contains_key(name_bytes(s@))),
{
    let ghost pred = |s: String| !initializers.view().contains_key(name_bytes(s@));
    let mut out: Vec<String> = Vec::new();
    let mut i: usize = 0;
    while i < declared.len()
        invariant
            initializers.wf(),
            i <= declared@.len(),
            pred == (|s: String| !initializers.view().contains_key(name_bytes(s@))),
            out@ == declared@.subrange(0, i as int).filter(pred),
        decreases declared@.len() - i,
    {
        proof {
            let pre = declared@.subrange(0, i as int);
            assert(declared@.subrange(0, i + 1) =~= pre.push(declared@[i as int]));
            pre.lemma_filter_len_push(pred, declared@[i as int]);
            assert(pre.push(declared@[i as int]).filter(pred) == if pred(declared@[i as int]) {
                pre.filter(pred).push(declared@[i as int])
            } else {
                pre.filter(pred)
            }) by {
                reveal(Seq::filter);
                assert(pre.push(declared@[i as int]).drop_last() =~= pre);
            }
        }
        if !initializers.contains_key(&declared[i]) {
            out.push(declared[i].clone());
        }
        i = i + 1;
    }
    assert(declared@.subrange(0, i as int) =~= declared@);
    out
}

} // verus!
