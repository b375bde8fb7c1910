use vstd::prelude::*;

use crate::encoding::DecodeError;

verus! {

/// Why a string is not an identifier of the expected logical type.
#[derive(Debug, Clone, PartialEq, Eq)]
pub enum Error {
    /// The string holds no `_` separator.
    InvalidFormat,
    /// The part before the first `_` is not the prefix of the logical type.
    PrefixMismatch { expected: &'static str, actual: String },
    /// The part after the first `_` is not a valid token.
    InvalidPayload(DecodeError),
}

} // verus!
