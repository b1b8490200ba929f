//! The pure part of the batch conversion pipeline.
//!
//! Discovering files and writing outputs is I/O and lives outside the
//! library; what is decided here is the policy: every input is converted
//! independently, failures do not stop the rest, and the batch reports the
//! first failure while the other outputs stand.

use vstd::prelude::*;

use crate::codec::spec_from_binary;
use crate::error::MsbtError;
use crate::model::Msbt;
use crate::model::SpecDoc;

verus! {

/// Whether a decode outcome is exactly what [`spec_from_binary`] assigns to
/// the bytes.
pub open spec fn decode_result_matches(data: Seq<u8>, r: Result<Msbt, MsbtError>) -> bool {
    match r {
        Ok(m) => spec_from_binary(data) == Ok::<SpecDoc, MsbtError>(m@),
        Err(e) => spec_from_binary(data) == Err::<SpecDoc, MsbtError>(e),
    }
}

/// Decodes every named input independently, in order. No failure stops the
/// rest: the result holds one outcome per input, under the input's name.
pub fn decode_batch(inputs: Vec<(String, Vec<u8>)>) -> (r: Vec<
    (String, Result<Msbt, MsbtError>),
>)
    ensures
        r@.len() == inputs@.len(),
        forall|i: int| 0 <= i < r@.len() ==> (#[trigger] r@[i]).0 == inputs@[i].0,
        forall|i: int|
            0 <= i < r@.len() ==> decode_result_matches(inputs@[i].1@, (#[trigger] r@[i]).1),
{
    let orig = Ghost(inputs@);
    let mut rest = inputs;
    let mut results: Vec<(String, Result<Msbt, MsbtError>)> = Vec::new();
    while rest.len() > 0
        invariant
            orig@.len() == results@.len() + rest@.len(),
            forall|j: int| 0 <= j < results@.len() ==> (#[trigger] results@[j]).0 == orig@[j].0,
            forall|j: int|
                0 <= j < results@.len() ==> decode_result_matches(
                    orig@[j].1@,
                    (#[trigger] results@[j]).1,
                ),
            forall|j: int|
                0 <= j < rest@.len() ==> #[trigger] rest@[j] == orig@[j + results@.len()],
        decreases rest@.len(),
    {
        let (name, data) = rest.remove(0);
        let res = Msbt::from_binary(data.as_slice());
        results.push((name, res));
    }
    results
}

/// The first failure of a batch, as the index of the failing input and its
/// error; `None` when every conversion succeeded.
pub fn first_error(results: &Vec<(String, Result<Msbt, MsbtError>)>) -> (r: Option<
    (usize, MsbtError),
>)
    ensures
        match r {
            Some(p) => 0 <= p.0 < results@.len() && results@[p.0 as int].1 == Err::<
                Msbt,
                MsbtError,
            >(p.1) && (forall|j: int| 0 <= j < p.0 ==> (#[trigger] results@[j]).1 is Ok),
            None => forall|j: int| 0 <= j < results@.len() ==> (#[trigger] results@[j]).1 is Ok,
        },
{
    let mut i: usize = 0;
    while i < results.len()
        invariant
            0 <= i <= results@.len(),
            forall|j: int| 0 <= j < i ==> (#[trigger] results@[j]).1 is Ok,
        decreases results@.len() - i,
    {
        match &results[i].1 {
            Err(e) => {
                return Some((i, *e));
            }
            Ok(_) => {}
        }
        i = i + 1;
    }
    None
}

} // verus!
