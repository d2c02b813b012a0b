use vstd::prelude::*;
use crate::tag::TypeTag;

verus! {

/// The failure taxonomy of the codec.
///
/// Any error aborts the whole recursive walk immediately; partial output is
/// discarded by the top-level entry points, so exactly one error value
/// reaches the caller.
#[derive(Debug, PartialEq, Eq)]
pub enum CodecError {
    /// The type description matched neither a known scalar nor a sequence
    /// nor an associative-map shape; carries the offending qualified name.
    UnsupportedType(String),
    /// A value (or, while decoding, a byte) claims a tag but does not hold
    /// the shape the tag requires; carries the expected shape.
    ScalarConversion(TypeTag),
    /// Fewer bytes remain than the current tag requires.
    Truncated,
    /// Bytes remain after a complete top-level decode.
    TrailingData,
    /// The host's introspection facility handed over a malformed type
    /// description (a composite shape without its type arguments).
    ReflectionCall,
}

} // verus!
