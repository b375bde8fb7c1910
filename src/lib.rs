//! Typed 64-bit identifiers with a prefixed base32 text form.
use vstd::prelude::*;

pub mod encoding;
pub mod error;
pub mod id;

pub use encoding::{parse_base32, stringify_base32, DecodeError};
pub use error::Error;
pub use id::{Id, IdBytes};

verus! {

/// A logical type of identifier, such as a user or an order.
///
/// Each logical type has one constant prefix, which is non-empty and holds no `_`.
pub trait Type {
    /// The prefix of this logical type, as a sequence of characters.
    open spec fn spec_prefix() -> Seq<char> {
        arbitrary()
    }

    /// The prefix of this logical type: the same string on every call.
    fn prefix() -> (r: &'static str)
        ensures
            r@ == Self::spec_prefix(),
    ;
}

} // verus!
