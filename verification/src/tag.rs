use vstd::prelude::*;

verus! {

/// A closed, recursive description of one wire shape.
///
/// A `List` node carries exactly one child tag (the element type); a `Map`
/// node carries exactly two (key type first, then value type — the order
/// matters for encoding). A tag tree is immutable once resolved and is read
/// in lock-step with a value (encoding) or a byte cursor (decoding).
#[derive(Debug, PartialEq, Eq)]
pub enum TypeTag {
    Boolean,
    Text,
    ByteArray,
    Byte,
    Short,
    Int,
    Long,
    Float,
    Double,
    List(Box<TypeTag>),
    MapOf(Box<TypeTag>, Box<TypeTag>),
}

/// The number of nodes of a tag tree; every recursion of the codec walks
/// strictly smaller tags, so this is the termination measure throughout.
pub open spec fn tag_size(t: TypeTag) -> nat
    decreases t,
{
    match t {
        TypeTag::List(e) => 1 + tag_size(*e),
        TypeTag::MapOf(k, v) => 1 + tag_size(*k) + tag_size(*v),
        _ => 1,
    }
}

} // verus!
