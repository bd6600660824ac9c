//! The operations a host calls: JSON values to canonical bytes and back.
use vstd::prelude::*;
use crate::bridge::{json_to_ipld, to_generic, to_json};
use crate::render::ipld_to_json;
use crate::cbor::{decode_spec, enc, encodable};
use crate::decoder::decode_canonical;
use crate::encoder::encode_canonical;
use crate::error::CodecError;
use crate::value::{GenericValue, JsonValue};

verus! {

/// The canonical DAG-CBOR encoding of a generic value. Fails with
/// `CodecError::Encode` exactly when the value has none: a float that is
/// infinite or NaN, or a map whose keys are not in strictly ascending byte order.
pub fn dag_cbor_encode(v: &GenericValue) -> (r: Result<Vec<u8>, CodecError>)
    ensures
        encodable(v.model()) ==> (r matches Ok(b) && b@ == enc(v.model())),
        !encodable(v.model()) ==> r == Err::<Vec<u8>, CodecError>(CodecError::Encode),
{
    match encode_canonical(v) {
        Some(b) => Ok(b),
        None => Err(CodecError::Encode),
    }
}

/// The generic value that a canonical DAG-CBOR buffer holds. Fails with
/// `CodecError::Decode` on truncated input, an unknown or unsupported item, a
/// non-canonical encoding, an invalid CID, or bytes after the value.
pub fn dag_cbor_decode(bytes: &[u8]) -> (r: Result<GenericValue, CodecError>)
    ensures
        match decode_spec(bytes@) {
            Some(v) => r matches Ok(g) && g.model() == v,
            None => r == Err::<GenericValue, CodecError>(CodecError::Decode),
        },
{
    match decode_canonical(bytes) {
        Some(g) => Ok(g),
        None => Err(CodecError::Decode),
    }
}

/// Bridges a JSON value to a generic value and encodes it canonically.
pub fn encode_dag_cbor(json: JsonValue) -> (r: Result<Vec<u8>, CodecError>)
    ensures
        match to_generic(json.model()) {
            None => r == Err::<Vec<u8>, CodecError>(CodecError::CidParse),
            Some(v) => if encodable(v) {
                r matches Ok(b) && b@ == enc(v)
            } else {
                r == Err::<Vec<u8>, CodecError>(CodecError::Encode)
            },
        },
{
    match json_to_ipld(json) {
        Ok(g) => dag_cbor_encode(&g),
        Err(e) => Err(e),
    }
}

/// Decodes a canonical DAG-CBOR buffer and bridges the value to JSON.
pub fn decode_dag_cbor(bytes: &[u8]) -> (r: Result<JsonValue, CodecError>)
    ensures
        match decode_spec(bytes@) {
            Some(v) => r matches Ok(j) && j.model() == to_json(v),
            None => r == Err::<JsonValue, CodecError>(CodecError::Decode),
        },
{
    match dag_cbor_decode(bytes) {
        Ok(g) => Ok(ipld_to_json(g)),
        Err(e) => Err(e),
    }
}

} // verus!
