//! A canonical codec between JSON values and DAG-CBOR bytes.
//!
//! The generic value domain (`GenericValue`) is richer than JSON: integers and
//! floats are disjoint, byte strings exist, and content identifiers appear as
//! typed links. `json_to_ipld` and `ipld_to_json` bridge the two domains, and
//! `dag_cbor_encode` / `dag_cbor_decode` give the canonical binary form.

pub mod bridge;
pub mod cbor;
pub mod codec;
pub mod content_id;
mod decoder;
mod encoder;
pub mod error;
pub mod laws;
mod render;
mod roundtrip;
pub mod value;

pub use bridge::json_to_ipld;
pub use render::ipld_to_json;
pub use codec::{dag_cbor_decode, dag_cbor_encode, decode_dag_cbor, encode_dag_cbor};
pub use content_id::ContentId;
pub use error::CodecError;
pub use value::{GenericValue, JsonNumber, JsonValue};
