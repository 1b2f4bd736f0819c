//! Serialized form of stored vectors. The relational tables persist each
//! vector as a JSON array; the index tables hold the components themselves.
//! The serializer is an outside library, so its output is named rather than
//! restated: `json_of` stands for the text it produces for given components.

use vstd::prelude::*;
use crate::errors::EngineError;

verus! {

/// The JSON text that the serializer produces for a vector with these
/// components. A function of the components alone.
pub uninterp spec fn json_of(v: Seq<i64>) -> Seq<char>;

/// Relies on serde_json::to_string: serializing a vector of integers is
/// deterministic in the components and always succeeds (only maps with
/// non-string keys or a failing Serialize impl can error, and neither occurs
/// for `Vec<i64>`).
#[verifier::external_body]
pub(crate) fn vector_to_json(v: &Vec<i64>) -> (r: String)
    ensures
        r@ == json_of(v@),
{
    serde_json::to_string(v).unwrap()
}

/// Relies on serde_json::from_str: parsing accepts every text that
/// serde_json::to_string produced for a vector of integers and recovers
/// exactly the original components.
#[verifier::external_body]
pub(crate) fn vector_from_json(s: &str) -> (r: Option<Vec<i64>>)
    ensures
        r is None ==> forall|v: Seq<i64>| s@ != json_of(v),
        r matches Some(w) ==> forall|v: Seq<i64>| s@ == json_of(v) ==> w@ == v,
{
    serde_json::from_str::<Vec<i64>>(s).ok()
}

/// Recovers the components of a stored vector from its serialized form and
/// checks the corpus dimension. Text that parses to the wrong dimension is a
/// `DimensionMismatch`; text that does not parse at all means the stored
/// payload is corrupt, a `StorageFailure`.
pub fn parse_vector_json(s: &str, dim: usize) -> (r: Result<Vec<i64>, EngineError>)
    ensures
        r matches Ok(v) ==> v@.len() == dim,
        forall|v: Seq<i64>| (s@ == json_of(v) && v.len() == dim)
            ==> (r matches Ok(w) && w@ == v),
        forall|v: Seq<i64>| (s@ == json_of(v) && v.len() != dim)
            ==> r == Err::<Vec<i64>, EngineError>(EngineError::DimensionMismatch),
        r is Err ==> (r == Err::<Vec<i64>, EngineError>(EngineError::DimensionMismatch)
            || r == Err::<Vec<i64>, EngineError>(EngineError::StorageFailure)),
{
    match vector_from_json(s) {
        Some(v) => {
            if v.len() == dim {
                Ok(v)
            } else {
                Err(EngineError::DimensionMismatch)
            }
        },
        None => Err(EngineError::StorageFailure),
    }
}

} // verus!
