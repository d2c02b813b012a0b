use vstd::prelude::*;
use crate::tag::TypeTag;
use crate::tag::tag_size;

verus! {

/// A dynamically typed host value, held as plain data.
///
/// The host runtime's opaque value references are bridged to this shape at
/// the boundary: every capability the codec reads (scalar accessors,
/// sequence iteration, key-value iteration) becomes a variant here. A
/// string carries its UTF-8 bytes; a floating-point scalar carries its
/// IEEE-754 bit pattern, which is exactly what the wire format moves.
#[derive(Debug, PartialEq, Eq)]
pub enum HostValue {
    Boolean(bool),
    /// The UTF-8 encoding of a string value.
    Text(Vec<u8>),
    Bytes(Vec<u8>),
    Byte(i8),
    Short(i16),
    Int(i32),
    Long(i64),
    /// The bit pattern of a 32-bit floating-point value.
    Float(u32),
    /// The bit pattern of a 64-bit floating-point value.
    Double(u64),
    /// Elements in order.
    List(Vec<HostValue>),
    /// Pairs in the map's native iteration order; the codec neither sorts
    /// nor deduplicates them.
    MapOf(Vec<(HostValue, HostValue)>),
}

/// The mathematical shape of a host value; contracts and the codec laws
/// speak of values through this type.
#[verifier::ext_equal]
pub ghost enum AbstractValue {
    Boolean(bool),
    Text(Seq<u8>),
    Bytes(Seq<u8>),
    Byte(i8),
    Short(i16),
    Int(i32),
    Long(i64),
    Float(u32),
    Double(u64),
    List(Seq<AbstractValue>),
    MapOf(Seq<(AbstractValue, AbstractValue)>),
}

/// Whether an abstract value has exactly the shape a tag requires, at every
/// nesting level.
pub open spec fn wf(t: TypeTag, m: AbstractValue) -> bool
    decreases tag_size(t),
{
    match t {
        TypeTag::Boolean => m is Boolean,
        TypeTag::Text => m is Text,
        TypeTag::ByteArray => m is Bytes,
        TypeTag::Byte => m is Byte,
        TypeTag::Short => m is Short,
        TypeTag::Int => m is Int,
        TypeTag::Long => m is Long,
        TypeTag::Float => m is Float,
        TypeTag::Double => m is Double,
        TypeTag::List(e) => m matches AbstractValue::List(ms) && (forall|i: int|
            0 <= i < ms.len() ==> wf(*e, #[trigger] ms[i])),
        TypeTag::MapOf(k, w) => m matches AbstractValue::MapOf(ps) && (forall|i: int|
            0 <= i < ps.len() ==> wf(*k, (#[trigger] ps[i]).0) && wf(*w, ps[i].1)),
    }
}

/// Whether a host value has exactly the shape a tag requires; mirrors
/// [`wf`] on the executable representation.
pub open spec fn wf_host(t: TypeTag, v: HostValue) -> bool
    decreases tag_size(t),
{
    match t {
        TypeTag::Boolean => v is Boolean,
        TypeTag::Text => v is Text,
        TypeTag::ByteArray => v is Bytes,
        TypeTag::Byte => v is Byte,
        TypeTag::Short => v is Short,
        TypeTag::Int => v is Int,
        TypeTag::Long => v is Long,
        TypeTag::Float => v is Float,
        TypeTag::Double => v is Double,
        TypeTag::List(e) => v matches HostValue::List(vs) && (forall|i: int|
            0 <= i < vs@.len() ==> wf_host(*e, #[trigger] vs@[i])),
        TypeTag::MapOf(k, w) => v matches HostValue::MapOf(ps) && (forall|i: int|
            0 <= i < ps@.len() ==> wf_host(*k, (#[trigger] ps@[i]).0) && wf_host(*w, ps@[i].1)),
    }
}

/// The abstract value a host value stands for when read at tag `t`
/// (meaningful where `wf_host(t, v)` holds).
pub open spec fn view_at(t: TypeTag, v: HostValue) -> AbstractValue
    decreases tag_size(t),
{
    match t {
        TypeTag::Boolean => match v {
            HostValue::Boolean(b) => AbstractValue::Boolean(b),
            _ => AbstractValue::Boolean(false),
        },
        TypeTag::Text => match v {
            HostValue::Text(bs) => AbstractValue::Text(bs@),
            _ => AbstractValue::Boolean(false),
        },
        TypeTag::ByteArray => match v {
            HostValue::Bytes(bs) => AbstractValue::Bytes(bs@),
            _ => AbstractValue::Boolean(false),
        },
        TypeTag::Byte => match v {
            HostValue::Byte(x) => AbstractValue::Byte(x),
            _ => AbstractValue::Boolean(false),
        },
        TypeTag::Short => match v {
            HostValue::Short(x) => AbstractValue::Short(x),
            _ => AbstractValue::Boolean(false),
        },
        TypeTag::Int => match v {
            HostValue::Int(x) => AbstractValue::Int(x),
            _ => AbstractValue::Boolean(false),
        },
        TypeTag::Long => match v {
            HostValue::Long(x) => AbstractValue::Long(x),
            _ => AbstractValue::Boolean(false),
        },
        TypeTag::Float => match v {
            HostValue::Float(x) => AbstractValue::Float(x),
            _ => AbstractValue::Boolean(false),
        },
        TypeTag::Double => match v {
            HostValue::Double(x) => AbstractValue::Double(x),
            _ => AbstractValue::Boolean(false),
        },
        TypeTag::List(e) => match v {
            HostValue::List(vs) => AbstractValue::List(
                Seq::new(vs@.len(), |i: int| view_at(*e, vs@[i])),
            ),
            _ => AbstractValue::Boolean(false),
        },
        TypeTag::MapOf(k, w) => match v {
            HostValue::MapOf(ps) => AbstractValue::MapOf(
                Seq::new(ps@.len(), |i: int| (view_at(*k, ps@[i].0), view_at(*w, ps@[i].1))),
            ),
            _ => AbstractValue::Boolean(false),
        },
    }
}

/// A well-shaped host value's view is well-shaped at the same tag.
pub proof fn lemma_wf_host_view(t: TypeTag, v: HostValue)
    requires
        wf_host(t, v),
    ensures
        wf(t, view_at(t, v)),
    decreases tag_size(t),
{
    match t {
        TypeTag::List(e) => {
            let vs = v->List_0;
            let ms = view_at(t, v)->List_0;
            assert forall|i: int| 0 <= i < ms.len() implies wf(*e, #[trigger] ms[i]) by {
                assert(ms[i] == view_at(*e, vs@[i]));
                lemma_wf_host_view(*e, vs@[i]);
            }
        },
        TypeTag::MapOf(k, w) => {
            let ps = v->MapOf_0;
            let ms = view_at(t, v)->MapOf_0;
            assert forall|i: int| 0 <= i < ms.len() implies wf(*k, (#[trigger] ms[i]).0) && wf(
                *w,
                ms[i].1,
            ) by {
                assert(ms[i] == (view_at(*k, ps@[i].0), view_at(*w, ps@[i].1)));
                lemma_wf_host_view(*k, ps@[i].0);
                lemma_wf_host_view(*w, ps@[i].1);
            }
        },
        _ => {},
    }
}

} // verus!
