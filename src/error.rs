//! The ways a conversion can fail.
use vstd::prelude::*;

verus! {

/// Why a conversion failed.
#[derive(Debug, Clone, Copy, PartialEq, Eq, Structural)]
pub enum CodecError {
    /// A field named `cid` holds a string that is not a CID.
    CidParse,
    /// The value has no canonical binary encoding.
    Encode,
    /// The bytes are not one complete, canonical encoded value.
    Decode,
}

} // verus!
