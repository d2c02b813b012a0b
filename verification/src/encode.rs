use vstd::prelude::*;
use crate::error::CodecError;
use crate::tag::TypeTag;
use crate::tag::tag_size;
use crate::value::AbstractValue;
use crate::value::HostValue;
use crate::value::view_at;
use crate::value::wf_host;
use crate::wire::enc_varint;
use crate::wire::le_bytes;
use crate::wire::write_bytes;
use crate::wire::write_le;
use crate::wire::write_varint;

verus! {

/// The wire encoding of an abstract value read at tag `t`:
/// - `Boolean`: one byte, 0 or 1;
/// - fixed-width scalars: their little-endian two's-complement (or, for the
///   floating-point tags, bit-pattern) bytes, as wide as the scalar;
/// - `Text` / `ByteArray`: a varint byte count, then the raw bytes;
/// - `List`: a varint element count, then each element's encoding in order;
/// - `MapOf`: a varint pair count, then each pair's key encoding followed
///   immediately by its value encoding, in the map's native order.
///
/// Where the value does not match the tag the result is immaterial (the
/// serializer fails instead of producing it).
pub open spec fn enc(t: TypeTag, m: AbstractValue) -> Seq<u8>
    decreases tag_size(t), 0nat,
{
    match t {
        TypeTag::Boolean => match m {
            AbstractValue::Boolean(b) => seq![if b { 1u8 } else { 0u8 }],
            _ => seq![],
        },
        TypeTag::Text => match m {
            AbstractValue::Text(bs) => enc_varint(bs.len()) + bs,
            _ => seq![],
        },
        TypeTag::ByteArray => match m {
            AbstractValue::Bytes(bs) => enc_varint(bs.len()) + bs,
            _ => seq![],
        },
        TypeTag::Byte => match m {
            AbstractValue::Byte(x) => le_bytes((x as u8) as nat, 1),
            _ => seq![],
        },
        TypeTag::Short => match m {
            AbstractValue::Short(x) => le_bytes((x as u16) as nat, 2),
            _ => seq![],
        },
        TypeTag::Int => match m {
            AbstractValue::Int(x) => le_bytes((x as u32) as nat, 4),
            _ => seq![],
        },
        TypeTag::Long => match m {
            AbstractValue::Long(x) => le_bytes((x as u64) as nat, 8),
            _ => seq![],
        },
        TypeTag::Float => match m {
            AbstractValue::Float(x) => le_bytes(x as nat, 4),
            _ => seq![],
        },
        TypeTag::Double => match m {
            AbstractValue::Double(x) => le_bytes(x as nat, 8),
            _ => seq![],
        },
        TypeTag::List(e) => match m {
            AbstractValue::List(ms) => enc_varint(ms.len()) + enc_list(*e, ms),
            _ => seq![],
        },
        TypeTag::MapOf(k, w) => match m {
            AbstractValue::MapOf(ps) => enc_varint(ps.len()) + enc_map(*k, *w, ps),
            _ => seq![],
        },
    }
}

/// The concatenated encodings of the elements of a list, in order.
pub open spec fn enc_list(e: TypeTag, ms: Seq<AbstractValue>) -> Seq<u8>
    decreases tag_size(e), ms.len() + 1,
{
    if ms.len() == 0 {
        seq![]
    } else {
        enc(e, ms[0]) + enc_list(e, ms.skip(1))
    }
}

/// The concatenated (key encoding, value encoding) runs of a map's pairs,
/// in order.
pub open spec fn enc_map(k: TypeTag, w: TypeTag, ps: Seq<(AbstractValue, AbstractValue)>) -> Seq<
    u8,
>
    decreases tag_size(k) + tag_size(w), ps.len() + 1,
{
    if ps.len() == 0 {
        seq![]
    } else {
        enc(k, ps[0].0) + enc(w, ps[0].1) + enc_map(k, w, ps.skip(1))
    }
}

pub proof fn lemma_enc_list_snoc(e: TypeTag, ms: Seq<AbstractValue>, x: AbstractValue)
    ensures
        enc_list(e, ms.push(x)) == enc_list(e, ms) + enc(e, x),
    decreases ms.len(),
{
    if ms.len() == 0 {
        assert(ms.push(x)[0] == x);
        assert(ms.push(x).skip(1) =~= ms);
        assert(enc_list(e, ms.push(x)) == enc(e, x) + enc_list(e, ms));
        assert(enc(e, x) + Seq::<u8>::empty() =~= Seq::<u8>::empty() + enc(e, x));
    } else {
        assert(ms.push(x)[0] == ms[0]);
        assert(ms.push(x).skip(1) =~= ms.skip(1).push(x));
        lemma_enc_list_snoc(e, ms.skip(1), x);
        assert(enc_list(e, ms.push(x)) == enc(e, ms[0]) + enc_list(e, ms.skip(1).push(x)));
        assert(enc_list(e, ms) == enc(e, ms[0]) + enc_list(e, ms.skip(1)));
        assert(enc(e, ms[0]) + (enc_list(e, ms.skip(1)) + enc(e, x)) =~= (enc(e, ms[0])
            + enc_list(e, ms.skip(1))) + enc(e, x));
    }
}

pub proof fn lemma_enc_map_snoc(
    k: TypeTag,
    w: TypeTag,
    ps: Seq<(AbstractValue, AbstractValue)>,
    x: (AbstractValue, AbstractValue),
)
    ensures
        enc_map(k, w, ps.push(x)) == enc_map(k, w, ps) + enc(k, x.0) + enc(w, x.1),
    decreases ps.len(),
{
    if ps.len() == 0 {
        assert(ps.push(x)[0] == x);
        assert(ps.push(x).skip(1) =~= ps);
        assert(enc_map(k, w, ps.push(x)) == enc(k, x.0) + enc(w, x.1) + enc_map(k, w, ps));
        assert(enc(k, x.0) + enc(w, x.1) + Seq::<u8>::empty() =~= Seq::<u8>::empty() + enc(
            k,
            x.0,
        ) + enc(w, x.1));
    } else {
        assert(ps.push(x)[0] == ps[0]);
        assert(ps.push(x).skip(1) =~= ps.skip(1).push(x));
        lemma_enc_map_snoc(k, w, ps.skip(1), x);
        assert(enc_map(k, w, ps.push(x)) == enc(k, ps[0].0) + enc(w, ps[0].1) + enc_map(
            k,
            w,
            ps.skip(1).push(x),
        ));
        assert(enc_map(k, w, ps) == enc(k, ps[0].0) + enc(w, ps[0].1) + enc_map(k, w, ps.skip(1)));
        assert(enc(k, ps[0].0) + enc(w, ps[0].1) + (enc_map(k, w, ps.skip(1)) + enc(k, x.0) + enc(
            w,
            x.1,
        )) =~= (enc(k, ps[0].0) + enc(w, ps[0].1) + enc_map(k, w, ps.skip(1))) + enc(k, x.0) + enc(
            w,
            x.1,
        ));
    }
}

/// Walks `v` in lock-step with `t` and appends its encoding to `out`.
///
/// Succeeds exactly when the value matches the tag's shape at every level;
/// on failure `out` may hold a partial prefix, which the top-level entry
/// point discards.
pub fn serialize_value(v: &HostValue, t: &TypeTag, out: &mut Vec<u8>) -> (r: Result<
    (),
    CodecError,
>)
    ensures
        r is Ok <==> wf_host(*t, *v),
        r is Ok ==> final(out)@ == old(out)@ + enc(*t, view_at(*t, *v)),
        r matches Err(e) ==> e is ScalarConversion,
    decreases tag_size(*t),
{
    match t {
        TypeTag::Boolean => match v {
            HostValue::Boolean(b) => {
                out.push(if *b { 1 } else { 0 });
                assert(out@ =~= old(out)@ + enc(*t, view_at(*t, *v)));
                Ok(())
            },
            _ => Err(CodecError::ScalarConversion(TypeTag::Boolean)),
        },
        TypeTag::Text => match v {
            HostValue::Text(bs) => {
                write_varint(out, bs.len() as u64);
                write_bytes(out, bs);
                assert(out@ =~= old(out)@ + enc(*t, view_at(*t, *v)));
                Ok(())
            },
            _ => Err(CodecError::ScalarConversion(TypeTag::Text)),
        },
        TypeTag::ByteArray => match v {
            HostValue::Bytes(bs) => {
                write_varint(out, bs.len() as u64);
                write_bytes(out, bs);
                assert(out@ =~= old(out)@ + enc(*t, view_at(*t, *v)));
                Ok(())
            },
            _ => Err(CodecError::ScalarConversion(TypeTag::ByteArray)),
        },
        TypeTag::Byte => match v {
            HostValue::Byte(x) => {
                write_le(out, (#[verifier::truncate] (*x as u8)) as u64, 1);
                assert(out@ =~= old(out)@ + enc(*t, view_at(*t, *v)));
                Ok(())
            },
            _ => Err(CodecError::ScalarConversion(TypeTag::Byte)),
        },
        TypeTag::Short => match v {
            HostValue::Short(x) => {
                write_le(out, (#[verifier::truncate] (*x as u16)) as u64, 2);
                assert(out@ =~= old(out)@ + enc(*t, view_at(*t, *v)));
                Ok(())
            },
            _ => Err(CodecError::ScalarConversion(TypeTag::Short)),
        },
        TypeTag::Int => match v {
            HostValue::Int(x) => {
                write_le(out, (#[verifier::truncate] (*x as u32)) as u64, 4);
                assert(out@ =~= old(out)@ + enc(*t, view_at(*t, *v)));
                Ok(())
            },
            _ => Err(CodecError::ScalarConversion(TypeTag::Int)),
        },
        TypeTag::Long => match v {
            HostValue::Long(x) => {
                write_le(out, #[verifier::truncate] (*x as u64), 8);
                assert(out@ =~= old(out)@ + enc(*t, view_at(*t, *v)));
                Ok(())
            },
            _ => Err(CodecError::ScalarConversion(TypeTag::Long)),
        },
        TypeTag::Float => match v {
            HostValue::Float(x) => {
                write_le(out, *x as u64, 4);
                proof {
                    assert((*x as u64) as nat == *x as nat);
                }
                assert(out@ =~= old(out)@ + enc(*t, view_at(*t, *v)));
                Ok(())
            },
            _ => Err(CodecError::ScalarConversion(TypeTag::Float)),
        },
        TypeTag::Double => match v {
            HostValue::Double(x) => {
                write_le(out, *x, 8);
                assert(out@ =~= old(out)@ + enc(*t, view_at(*t, *v)));
                Ok(())
            },
            _ => Err(CodecError::ScalarConversion(TypeTag::Double)),
        },
        TypeTag::List(e) => match v {
            HostValue::List(vs) => {
                write_varint(out, vs.len() as u64);
                let ghost base = out@;
                let mut i: usize = 0;
                while i < vs.len()
                    invariant
                        *t == TypeTag::List(*e),
                        *v == HostValue::List(*vs),
                        i <= vs@.len(),
                        base == old(out)@ + enc_varint(vs@.len() as nat),
                        out@ == base + enc_list(
                            **e,
                            Seq::new(i as nat, |j: int| view_at(**e, vs@[j])),
                        ),
                        forall|j: int| 0 <= j < i ==> wf_host(**e, #[trigger] vs@[j]),
                    decreases vs@.len() - i,
                {
                    let ghost pre = Seq::new(i as nat, |j: int| view_at(**e, vs@[j]));
                    match serialize_value(&vs[i], e, out) {
                        Ok(()) => {},
                        Err(er) => {
                            assert(!wf_host(*t, *v));
                            return Err(er);
                        },
                    }
                    i = i + 1;
                    proof {
                        let post = Seq::new(i as nat, |j: int| view_at(**e, vs@[j]));
                        assert(post =~= pre.push(view_at(**e, vs@[i - 1])));
                        lemma_enc_list_snoc(**e, pre, view_at(**e, vs@[i - 1]));
                        assert(out@ =~= base + enc_list(**e, post));
                    }
                }
                proof {
                    let ms = view_at(*t, *v)->List_0;
                    assert(ms =~= Seq::new(vs@.len(), |j: int| view_at(**e, vs@[j])));
                    assert(out@ =~= old(out)@ + enc(*t, view_at(*t, *v)));
                }
                Ok(())
            },
            _ => Err(CodecError::ScalarConversion(TypeTag::List(Box::new(TypeTag::Boolean)))),
        },
        TypeTag::MapOf(k, w) => match v {
            HostValue::MapOf(ps) => {
                write_varint(out, ps.len() as u64);
                let ghost base = out@;
                let mut i: usize = 0;
                while i < ps.len()
                    invariant
                        *t == TypeTag::MapOf(*k, *w),
                        *v == HostValue::MapOf(*ps),
                        i <= ps@.len(),
                        base == old(out)@ + enc_varint(ps@.len() as nat),
                        out@ == base + enc_map(
                            **k,
                            **w,
                            Seq::new(
                                i as nat,
                                |j: int| (view_at(**k, ps@[j].0), view_at(**w, ps@[j].1)),
                            ),
                        ),
                        forall|j: int|
                            0 <= j < i ==> wf_host(**k, (#[trigger] ps@[j]).0) && wf_host(
                                **w,
                                ps@[j].1,
                            ),
                    decreases ps@.len() - i,
                {
                    let ghost pre = Seq::new(
                        i as nat,
                        |j: int| (view_at(**k, ps@[j].0), view_at(**w, ps@[j].1)),
                    );
                    let pair = &ps[i];
                    match serialize_value(&pair.0, k, out) {
                        Ok(()) => {},
                        Err(er) => {
                            assert(!wf_host(*t, *v));
                            return Err(er);
                        },
                    }
                    match serialize_value(&pair.1, w, out) {
                        Ok(()) => {},
                        Err(er) => {
                            assert(!wf_host(*t, *v));
                            return Err(er);
                        },
                    }
                    i = i + 1;
                    proof {
                        let post = Seq::new(
                            i as nat,
                            |j: int| (view_at(**k, ps@[j].0), view_at(**w, ps@[j].1)),
                        );
                        let x = (view_at(**k, ps@[i - 1].0), view_at(**w, ps@[i - 1].1));
                        assert(post =~= pre.push(x));
                        lemma_enc_map_snoc(**k, **w, pre, x);
                        assert(out@ =~= base + enc_map(**k, **w, post));
                    }
                }
                proof {
                    let ms = view_at(*t, *v)->MapOf_0;
                    assert(ms =~= Seq::new(
                        ps@.len(),
                        |j: int| (view_at(**k, ps@[j].0), view_at(**w, ps@[j].1)),
                    ));
                    assert(out@ =~= old(out)@ + enc(*t, view_at(*t, *v)));
                }
                Ok(())
            },
            _ => Err(
                CodecError::ScalarConversion(
                    TypeTag::MapOf(Box::new(TypeTag::Boolean), Box::new(TypeTag::Boolean)),
                ),
            ),
        },
    }
}

/// Serializes one value against a resolved tag tree; the single-pass,
/// depth-first walk either yields the whole byte sequence or fails without
/// committing any output.
pub fn serialize_top(v: &HostValue, t: &TypeTag) -> (r: Result<Vec<u8>, CodecError>)
    ensures
        r is Ok <==> wf_host(*t, *v),
        r matches Ok(b) ==> b@ == enc(*t, view_at(*t, *v)),
        r matches Err(e) ==> e is ScalarConversion,
{
    let mut out: Vec<u8> = Vec::new();
    match serialize_value(v, t, &mut out) {
        Ok(()) => Ok(out),
        Err(e) => Err(e),
    }
}

} // verus!
