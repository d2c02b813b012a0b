//! A type-directed binary codec for dynamically typed host values.
//!
//! The crate bridges two type models: a reflective, runtime-introspected
//! type description supplied by the caller (normalized by [`resolve::resolve`]
//! into a closed [`tag::TypeTag`] tree), and a compact, self-describing binary
//! wire format (produced by [`encode::serialize_top`] and consumed by
//! [`decode::deserialize_top`]).

pub mod decode;
pub mod encode;
pub mod error;
pub mod handle;
pub mod laws;
pub mod resolve;
pub mod tag;
pub mod value;
pub mod wire;
