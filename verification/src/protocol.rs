//! Validation of the coordinator's work response. The transport layer
//! hands over the three response fields as plain optional values (absent
//! or malformed JSON surfaces as a missing field); everything the
//! protocol demands of their content is checked here.

use vstd::prelude::*;

use crate::codec::WorkAssignment;
use crate::decimal::{decimal_value, is_decimal, parse_u128_decimal};
use crate::errors::WorkerError;

verus! {

/// Every raw index fits 11 bits.
pub open spec fn indices_ok(indices: Seq<u128>) -> bool {
    forall|i: int| 0 <= i < indices.len() ==> #[trigger] indices[i] < 2048
}

/// A work response is acceptable exactly when all three fields are
/// present, the offset is a decimal numeral that fits 128 bits, and
/// every index fits 11 bits.
pub open spec fn response_ok(
    indices: Option<Vec<u128>>,
    offset_text: Option<Vec<u8>>,
    batch_size: Option<u64>,
) -> bool {
    &&& indices matches Some(iv) && indices_ok(iv@)
    &&& offset_text matches Some(ot) && is_decimal(ot@) && decimal_value(ot@) <= u128::MAX
    &&& batch_size is Some
}

/// Builds a work assignment out of the fields of a coordinator response.
///
/// Fails with `CoordinatorProtocolError` exactly when a field is
/// missing, the offset is not a decimal numeral fitting 128 bits, or an
/// index is 2048 or more. On success the assignment carries the indices
/// as digits, the offset's value and the batch size, unchanged.
#[verifier::loop_isolation(false)]
pub fn parse_work_response(
    indices: Option<Vec<u128>>,
    offset_text: Option<Vec<u8>>,
    batch_size: Option<u64>,
) -> (r: Result<WorkAssignment, WorkerError>)
    ensures
        match r {
            Ok(a) => {
                &&& response_ok(indices, offset_text, batch_size)
                &&& a.wf()
                &&& indices matches Some(iv) && a.digits@.len() == iv@.len() && (forall|i: int|
                    0 <= i < iv@.len() ==> #[trigger] a.digits@[i] as int == iv@[i] as int)
                &&& offset_text matches Some(ot) && a.offset as int == decimal_value(ot@)
                &&& batch_size matches Some(b) && a.batch_size == b
            },
            Err(e) => e == WorkerError::CoordinatorProtocolError && !response_ok(
                indices,
                offset_text,
                batch_size,
            ),
        },
{
    let iv = match indices {
        Some(v) => v,
        None => {
            return Err(WorkerError::CoordinatorProtocolError);
        },
    };
    let ot = match offset_text {
        Some(v) => v,
        None => {
            return Err(WorkerError::CoordinatorProtocolError);
        },
    };
    let b = match batch_size {
        Some(v) => v,
        None => {
            return Err(WorkerError::CoordinatorProtocolError);
        },
    };
    let offset = match parse_u128_decimal(&ot) {
        Some(v) => v,
        None => {
            return Err(WorkerError::CoordinatorProtocolError);
        },
    };
    let mut digits: Vec<u16> = Vec::new();
    let mut i: usize = 0;
    while i < iv.len()
        invariant
            i <= iv@.len(),
            digits@.len() == i,
            forall|j: int| 0 <= j < i ==> #[trigger] iv@[j] < 2048,
            forall|j: int| 0 <= j < i ==> #[trigger] digits@[j] as int == iv@[j] as int,
        decreases iv@.len() - i,
    {
        let x = iv[i];
        if x >= 2048 {
            return Err(WorkerError::CoordinatorProtocolError);
        }
        digits.push(x as u16);
        i = i + 1;
    }
    Ok(WorkAssignment { digits, offset, batch_size: b })
}

} // verus!
