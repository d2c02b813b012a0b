use vstd::prelude::*;
use crate::decode::dec;
use crate::decode::dec_list;
use crate::decode::dec_map;
use crate::decode::top_dec;
use crate::encode::enc;
use crate::encode::enc_list;
use crate::encode::enc_map;
use crate::error::CodecError;
use crate::tag::TypeTag;
use crate::tag::tag_size;
use crate::value::AbstractValue;
use crate::value::HostValue;
use crate::value::lemma_wf_host_view;
use crate::value::view_at;
use crate::value::wf;
use crate::value::wf_host;
use crate::wire::enc_varint;
use crate::wire::le_val;
use crate::wire::lemma_enc_varint_len;
use crate::wire::lemma_le_bytes_len;
use crate::wire::lemma_le_round_trip;
use crate::wire::lemma_varint_round_trip;
use crate::wire::lemma_varint_truncated;
use crate::wire::pow256;

verus! {

// ---------------------------------------------------------------------------
// Splitting a buffer along a concatenated encoding
// ---------------------------------------------------------------------------

/// Bytes that hold `x + y` hold `x` and then `y`.
proof fn lemma_subrange_split(b: Seq<u8>, pos: int, x: Seq<u8>, y: Seq<u8>)
    requires
        0 <= pos,
        pos + x.len() + y.len() <= b.len(),
        b.subrange(pos, pos + x.len() + y.len()) == x + y,
    ensures
        b.subrange(pos, pos + x.len() as int) == x,
        b.subrange(pos + x.len() as int, pos + x.len() + y.len()) == y,
{
    assert forall|i: int| 0 <= i < x.len() implies #[trigger] b.subrange(
        pos,
        pos + x.len() as int,
    )[i] == x[i] by {
        assert(b.subrange(pos, pos + x.len() + y.len())[i] == (x + y)[i]);
    }
    assert(b.subrange(pos, pos + x.len() as int) =~= x);
    assert forall|i: int| 0 <= i < y.len() implies #[trigger] b.subrange(
        pos + x.len() as int,
        pos + x.len() + y.len(),
    )[i] == y[i] by {
        assert(b.subrange(pos, pos + x.len() + y.len())[i + x.len()] == (x + y)[i + x.len()]);
        assert(b.subrange(pos, pos + x.len() + y.len())[i + x.len()] == b[pos + x.len() + i]);
        assert((x + y)[i + x.len()] == y[i]);
        assert(b.subrange(pos + x.len() as int, pos + x.len() + y.len())[i] == b[pos + x.len()
            + i]);
    }
    assert(b.subrange(pos + x.len() as int, pos + x.len() + y.len()) =~= y);
}

/// A buffer cut inside `x + y`, but past `x`, holds `x` whole and then the
/// kept part of `y`.
proof fn lemma_cut_split(b: Seq<u8>, pos: int, x: Seq<u8>, y: Seq<u8>)
    requires
        0 <= pos <= b.len(),
        x.len() <= b.len() - pos,
        b.len() - pos <= x.len() + y.len(),
        b.subrange(pos, b.len() as int) == (x + y).subrange(0, b.len() - pos),
    ensures
        b.subrange(pos, pos + x.len() as int) == x,
        b.subrange(pos + x.len() as int, b.len() as int) == y.subrange(0, b.len() - pos - x.len()),
{
    assert forall|i: int| 0 <= i < x.len() implies #[trigger] b.subrange(
        pos,
        pos + x.len() as int,
    )[i] == x[i] by {
        assert(b.subrange(pos, b.len() as int)[i] == (x + y).subrange(0, b.len() - pos)[i]);
    }
    assert(b.subrange(pos, pos + x.len() as int) =~= x);
    assert forall|i: int| 0 <= i < b.len() - pos - x.len() implies #[trigger] b.subrange(
        pos + x.len() as int,
        b.len() as int,
    )[i] == y.subrange(0, b.len() - pos - x.len())[i] by {
        assert(b.subrange(pos, b.len() as int)[i + x.len()] == (x + y).subrange(
            0,
            b.len() - pos,
        )[i + x.len()]);
        assert(b.subrange(pos, b.len() as int)[i + x.len()] == b[pos + x.len() + i]);
        assert((x + y).subrange(0, b.len() - pos)[i + x.len()] == (x + y)[i + x.len()]);
        assert((x + y)[i + x.len()] == y[i]);
        assert(b.subrange(pos + x.len() as int, b.len() as int)[i] == b[pos + x.len() + i]);
        assert(y.subrange(0, b.len() - pos - x.len())[i] == y[i]);
    }
    assert(b.subrange(pos + x.len() as int, b.len() as int) =~= y.subrange(
        0,
        b.len() - pos - x.len(),
    ));
}

/// A buffer cut strictly inside `x` holds the kept part of `x` alone,
/// whatever `x + y` it was cut from.
proof fn lemma_cut_head(b: Seq<u8>, pos: int, x: Seq<u8>, y: Seq<u8>)
    requires
        0 <= pos <= b.len(),
        b.len() - pos < x.len(),
        b.subrange(pos, b.len() as int) == (x + y).subrange(0, b.len() - pos),
    ensures
        b.subrange(pos, b.len() as int) == x.subrange(0, b.len() - pos),
{
    assert forall|i: int| 0 <= i < b.len() - pos implies #[trigger] b.subrange(
        pos,
        b.len() as int,
    )[i] == x.subrange(0, b.len() - pos)[i] by {
        assert((x + y).subrange(0, b.len() - pos)[i] == (x + y)[i]);
    }
    assert(b.subrange(pos, b.len() as int) =~= x.subrange(0, b.len() - pos));
}

// ---------------------------------------------------------------------------
// Sizes of encodings
// ---------------------------------------------------------------------------

/// Every encoding of a well-shaped value occupies at least one byte.
pub proof fn lemma_enc_len_pos(t: TypeTag, m: AbstractValue)
    requires
        wf(t, m),
    ensures
        enc(t, m).len() >= 1,
{
    match t {
        TypeTag::Boolean => {},
        TypeTag::Text => lemma_enc_varint_len(m->Text_0.len()),
        TypeTag::ByteArray => lemma_enc_varint_len(m->Bytes_0.len()),
        TypeTag::Byte => lemma_le_bytes_len((m->Byte_0 as u8) as nat, 1),
        TypeTag::Short => lemma_le_bytes_len((m->Short_0 as u16) as nat, 2),
        TypeTag::Int => lemma_le_bytes_len((m->Int_0 as u32) as nat, 4),
        TypeTag::Long => lemma_le_bytes_len((m->Long_0 as u64) as nat, 8),
        TypeTag::Float => lemma_le_bytes_len(m->Float_0 as nat, 4),
        TypeTag::Double => lemma_le_bytes_len(m->Double_0 as nat, 8),
        TypeTag::List(_) => lemma_enc_varint_len(m->List_0.len()),
        TypeTag::MapOf(_, _) => lemma_enc_varint_len(m->MapOf_0.len()),
    }
}

/// A list's element encodings hold at least one byte per element.
proof fn lemma_enc_list_len(e: TypeTag, ms: Seq<AbstractValue>)
    requires
        forall|i: int| 0 <= i < ms.len() ==> wf(e, #[trigger] ms[i]),
    ensures
        enc_list(e, ms).len() >= ms.len(),
    decreases ms.len(),
{
    if ms.len() > 0 {
        lemma_enc_len_pos(e, ms[0]);
        assert forall|i: int| 0 <= i < ms.skip(1).len() implies wf(e, #[trigger] ms.skip(1)[i]) by {
            assert(ms.skip(1)[i] == ms[i + 1]);
        }
        lemma_enc_list_len(e, ms.skip(1));
    }
}

/// A map's pair encodings hold at least one byte per pair.
proof fn lemma_enc_map_len(k: TypeTag, w: TypeTag, ps: Seq<(AbstractValue, AbstractValue)>)
    requires
        forall|i: int| 0 <= i < ps.len() ==> wf(k, (#[trigger] ps[i]).0) && wf(w, ps[i].1),
    ensures
        enc_map(k, w, ps).len() >= ps.len(),
    decreases ps.len(),
{
    if ps.len() > 0 {
        lemma_enc_len_pos(k, ps[0].0);
        lemma_enc_len_pos(w, ps[0].1);
        assert forall|i: int| 0 <= i < ps.skip(1).len() implies wf(
            k,
            (#[trigger] ps.skip(1)[i]).0,
        ) && wf(w, ps.skip(1)[i].1) by {
            assert(ps.skip(1)[i] == ps[i + 1]);
        }
        lemma_enc_map_len(k, w, ps.skip(1));
    }
}

// ---------------------------------------------------------------------------
// Round-trip: decoding an encoding yields the value back
// ---------------------------------------------------------------------------

/// Decoding at the start of a well-shaped value's encoding yields exactly
/// that value and stops exactly past it, whatever bytes follow.
pub proof fn lemma_dec_enc(t: TypeTag, m: AbstractValue, b: Seq<u8>, pos: int)
    requires
        wf(t, m),
        0 <= pos,
        pos + enc(t, m).len() <= b.len(),
        b.subrange(pos, pos + enc(t, m).len() as int) == enc(t, m),
    ensures
        dec(t, b, pos) matches Ok(pr) && pr.0 == m && pr.1 == pos + enc(t, m).len(),
    decreases tag_size(t), 0nat,
{
    let e = enc(t, m);
    match t {
        TypeTag::Boolean => {
            assert(b[pos] == e[0]);
        },
        TypeTag::Byte => {
            let v = (m->Byte_0 as u8) as nat;
            lemma_le_bytes_len(v, 1);
            assert(pow256(1) == 256) by {
                reveal_with_fuel(pow256, 2);
            }
            lemma_le_round_trip(v, 1);
            assert(le_val(b.subrange(pos, pos + 1)) == v);
            let x = m->Byte_0;
            assert(((x as u8) as u8) as i8 == x) by (bit_vector);
        },
        TypeTag::Short => {
            let v = (m->Short_0 as u16) as nat;
            lemma_le_bytes_len(v, 2);
            assert(pow256(2) == 0x10000) by {
                reveal_with_fuel(pow256, 3);
            }
            lemma_le_round_trip(v, 2);
            assert(le_val(b.subrange(pos, pos + 2)) == v);
            let x = m->Short_0;
            assert(((x as u16) as u16) as i16 == x) by (bit_vector);
        },
        TypeTag::Int => {
            let v = (m->Int_0 as u32) as nat;
            lemma_le_bytes_len(v, 4);
            assert(pow256(4) == 0x100000000) by {
                reveal_with_fuel(pow256, 5);
            }
            lemma_le_round_trip(v, 4);
            assert(le_val(b.subrange(pos, pos + 4)) == v);
            let x = m->Int_0;
            assert(((x as u32) as u32) as i32 == x) by (bit_vector);
        },
        TypeTag::Long => {
            let v = (m->Long_0 as u64) as nat;
            lemma_le_bytes_len(v, 8);
            assert(pow256(8) == 0x10000000000000000) by {
                reveal_with_fuel(pow256, 9);
            }
            lemma_le_round_trip(v, 8);
            assert(le_val(b.subrange(pos, pos + 8)) == v);
            let x = m->Long_0;
            assert(((x as u64) as u64) as i64 == x) by (bit_vector);
        },
        TypeTag::Float => {
            let v = m->Float_0 as nat;
            lemma_le_bytes_len(v, 4);
            assert(pow256(4) == 0x100000000) by {
                reveal_with_fuel(pow256, 5);
            }
            lemma_le_round_trip(v, 4);
            assert(le_val(b.subrange(pos, pos + 4)) == v);
        },
        TypeTag::Double => {
            let v = m->Double_0 as nat;
            lemma_le_bytes_len(v, 8);
            assert(pow256(8) == 0x10000000000000000) by {
                reveal_with_fuel(pow256, 9);
            }
            lemma_le_round_trip(v, 8);
            assert(le_val(b.subrange(pos, pos + 8)) == v);
        },
        TypeTag::Text => {
            let bs = m->Text_0;
            let h = enc_varint(bs.len());
            lemma_subrange_split(b, pos, h, bs);
            lemma_varint_round_trip(bs.len(), b, pos);
            assert(dec(t, b, pos) matches Ok(pr) && pr.0 == m && pr.1 == pos + e.len());
        },
        TypeTag::ByteArray => {
            let bs = m->Bytes_0;
            let h = enc_varint(bs.len());
            lemma_subrange_split(b, pos, h, bs);
            lemma_varint_round_trip(bs.len(), b, pos);
            assert(dec(t, b, pos) matches Ok(pr) && pr.0 == m && pr.1 == pos + e.len());
        },
        TypeTag::List(et) => {
            let ms = m->List_0;
            let h = enc_varint(ms.len());
            let body = enc_list(*et, ms);
            lemma_subrange_split(b, pos, h, body);
            lemma_varint_round_trip(ms.len(), b, pos);
            lemma_enc_list_len(*et, ms);
            lemma_dec_list_enc(*et, ms, b, pos + h.len());
        },
        TypeTag::MapOf(kt, wt) => {
            let ps = m->MapOf_0;
            let h = enc_varint(ps.len());
            let body = enc_map(*kt, *wt, ps);
            lemma_subrange_split(b, pos, h, body);
            lemma_varint_round_trip(ps.len(), b, pos);
            lemma_enc_map_len(*kt, *wt, ps);
            lemma_dec_map_enc(*kt, *wt, ps, b, pos + h.len());
        },
    }
}

/// Decoding `ms.len()` elements at the start of their concatenated
/// encodings yields exactly `ms`.
proof fn lemma_dec_list_enc(e: TypeTag, ms: Seq<AbstractValue>, b: Seq<u8>, pos: int)
    requires
        forall|i: int| 0 <= i < ms.len() ==> wf(e, #[trigger] ms[i]),
        0 <= pos,
        pos + enc_list(e, ms).len() <= b.len(),
        b.subrange(pos, pos + enc_list(e, ms).len() as int) == enc_list(e, ms),
    ensures
        dec_list(e, b, pos, ms.len()) matches Ok(pr) && pr.0 == ms && pr.1 == pos + enc_list(
            e,
            ms,
        ).len(),
    decreases tag_size(e), ms.len() + 1,
{
    if ms.len() == 0 {
        assert(dec_list(e, b, pos, 0) matches Ok(pr) && pr.0 =~= ms && pr.1 == pos);
    } else {
        let x = enc(e, ms[0]);
        let y = enc_list(e, ms.skip(1));
        lemma_subrange_split(b, pos, x, y);
        lemma_dec_enc(e, ms[0], b, pos);
        assert forall|i: int| 0 <= i < ms.skip(1).len() implies wf(e, #[trigger] ms.skip(1)[i]) by {
            assert(ms.skip(1)[i] == ms[i + 1]);
        }
        lemma_dec_list_enc(e, ms.skip(1), b, pos + x.len());
        assert(seq![ms[0]] + ms.skip(1) =~= ms);
    }
}

/// Decoding `ps.len()` key-value pair runs at the start of their
/// concatenated encodings yields exactly `ps`.
proof fn lemma_dec_map_enc(
    k: TypeTag,
    w: TypeTag,
    ps: Seq<(AbstractValue, AbstractValue)>,
    b: Seq<u8>,
    pos: int,
)
    requires
        forall|i: int| 0 <= i < ps.len() ==> wf(k, (#[trigger] ps[i]).0) && wf(w, ps[i].1),
        0 <= pos,
        pos + enc_map(k, w, ps).len() <= b.len(),
        b.subrange(pos, pos + enc_map(k, w, ps).len() as int) == enc_map(k, w, ps),
    ensures
        dec_map(k, w, b, pos, ps.len()) matches Ok(pr) && pr.0 == ps && pr.1 == pos + enc_map(
            k,
            w,
            ps,
        ).len(),
    decreases tag_size(k) + tag_size(w), ps.len() + 1,
{
    if ps.len() == 0 {
        assert(dec_map(k, w, b, pos, 0) matches Ok(pr) && pr.0 =~= ps && pr.1 == pos);
    } else {
        let xk = enc(k, ps[0].0);
        let xw = enc(w, ps[0].1);
        let y = enc_map(k, w, ps.skip(1));
        assert(xk + xw + y =~= xk + (xw + y));
        lemma_subrange_split(b, pos, xk, xw + y);
        lemma_subrange_split(b, pos + xk.len(), xw, y);
        lemma_dec_enc(k, ps[0].0, b, pos);
        lemma_dec_enc(w, ps[0].1, b, pos + xk.len());
        assert forall|i: int| 0 <= i < ps.skip(1).len() implies wf(
            k,
            (#[trigger] ps.skip(1)[i]).0,
        ) && wf(w, ps.skip(1)[i].1) by {
            assert(ps.skip(1)[i] == ps[i + 1]);
        }
        lemma_dec_map_enc(k, w, ps.skip(1), b, pos + xk.len() + xw.len());
        assert(seq![(ps[0].0, ps[0].1)] + ps.skip(1) =~= ps);
    }
}

// ---------------------------------------------------------------------------
// The codec laws
// ---------------------------------------------------------------------------

/// Round-trip: for every supported tag shape and any well-shaped value,
/// decoding the bytes the serializer produced, with the same tag, yields
/// the original value back and consumes the whole buffer.
pub proof fn lemma_round_trip(t: TypeTag, m: AbstractValue)
    requires
        wf(t, m),
    ensures
        top_dec(t, enc(t, m)) == Ok::<AbstractValue, CodecError>(m),
{
    let b = enc(t, m);
    assert(b.subrange(0, b.len() as int) =~= b);
    lemma_dec_enc(t, m, b, 0);
}

/// Round-trip at the boundary: the bytes the serializer promises for a
/// well-shaped host value decode, whole, back to exactly that value's view.
pub proof fn lemma_host_round_trip(t: TypeTag, v: HostValue)
    requires
        wf_host(t, v),
    ensures
        top_dec(t, enc(t, view_at(t, v))) == Ok::<AbstractValue, CodecError>(view_at(t, v)),
{
    lemma_wf_host_view(t, v);
    lemma_round_trip(t, view_at(t, v));
}

/// Length correctness: a serialized list of N elements decodes to exactly
/// N elements, and leaves the cursor exactly past the length prefix plus
/// the N element encodings.
pub proof fn lemma_list_length(t: TypeTag, m: AbstractValue)
    requires
        wf(t, m),
        t is List,
    ensures
        dec(t, enc(t, m), 0) matches Ok(pr) && pr.0->List_0.len() == m->List_0.len() && pr.1
            == enc_varint(m->List_0.len()).len() + enc_list(*t->List_0, m->List_0).len(),
{
    let b = enc(t, m);
    assert(b.subrange(0, b.len() as int) =~= b);
    lemma_dec_enc(t, m, b, 0);
}

/// Trailing-data detection: appending any extra byte to a complete
/// serialized sequence and decoding it whole fails with `TrailingData`.
pub proof fn lemma_trailing_data_detected(t: TypeTag, m: AbstractValue, extra: Seq<u8>)
    requires
        wf(t, m),
        extra.len() >= 1,
    ensures
        top_dec(t, enc(t, m) + extra) == Err::<AbstractValue, CodecError>(CodecError::TrailingData),
{
    let b = enc(t, m) + extra;
    assert(b.subrange(0, enc(t, m).len() as int) =~= enc(t, m));
    lemma_dec_enc(t, m, b, 0);
}

/// Truncation detection: cutting any serialized byte sequence short by at
/// least one byte and decoding it with the original tag fails with
/// `Truncated` — never silently, never with another error.
pub proof fn lemma_truncation_detected(t: TypeTag, m: AbstractValue, keep: int)
    requires
        wf(t, m),
        0 <= keep < enc(t, m).len(),
    ensures
        top_dec(t, enc(t, m).subrange(0, keep)) == Err::<AbstractValue, CodecError>(
            CodecError::Truncated,
        ),
{
    let b = enc(t, m).subrange(0, keep);
    assert(b.subrange(0, b.len() as int) =~= b);
    lemma_dec_enc_truncated(t, m, b, 0);
}

/// Decoding a strict prefix of a well-shaped value's encoding fails with
/// `Truncated`, wherever the cut falls.
proof fn lemma_dec_enc_truncated(t: TypeTag, m: AbstractValue, b: Seq<u8>, pos: int)
    requires
        wf(t, m),
        0 <= pos <= b.len(),
        b.len() - pos < enc(t, m).len(),
        b.subrange(pos, b.len() as int) == enc(t, m).subrange(0, b.len() - pos),
    ensures
        dec(t, b, pos) == Err::<(AbstractValue, int), CodecError>(CodecError::Truncated),
    decreases tag_size(t), 0nat,
{
    let e = enc(t, m);
    let rem = b.len() - pos;
    match t {
        TypeTag::Boolean => {},
        TypeTag::Byte => {
            lemma_le_bytes_len((m->Byte_0 as u8) as nat, 1);
        },
        TypeTag::Short => {
            lemma_le_bytes_len((m->Short_0 as u16) as nat, 2);
        },
        TypeTag::Int => {
            lemma_le_bytes_len((m->Int_0 as u32) as nat, 4);
        },
        TypeTag::Long => {
            lemma_le_bytes_len((m->Long_0 as u64) as nat, 8);
        },
        TypeTag::Float => {
            lemma_le_bytes_len(m->Float_0 as nat, 4);
        },
        TypeTag::Double => {
            lemma_le_bytes_len(m->Double_0 as nat, 8);
        },
        TypeTag::Text => {
            lemma_varlen_cut(enc_varint(m->Text_0.len()), m->Text_0, b, pos);
        },
        TypeTag::ByteArray => {
            lemma_varlen_cut(enc_varint(m->Bytes_0.len()), m->Bytes_0, b, pos);
        },
        TypeTag::List(et) => {
            let ms = m->List_0;
            let h = enc_varint(ms.len());
            let body = enc_list(*et, ms);
            if rem < h.len() {
                lemma_cut_head(b, pos, h, body);
                lemma_varint_truncated(ms.len(), b, pos);
            } else {
                lemma_cut_split(b, pos, h, body);
                lemma_varint_round_trip(ms.len(), b, pos);
                let q = pos + h.len();
                if ms.len() <= b.len() - q {
                    lemma_dec_list_enc_truncated(*et, ms, b, q);
                }
            }
        },
        TypeTag::MapOf(kt, wt) => {
            let ps = m->MapOf_0;
            let h = enc_varint(ps.len());
            let body = enc_map(*kt, *wt, ps);
            if rem < h.len() {
                lemma_cut_head(b, pos, h, body);
                lemma_varint_truncated(ps.len(), b, pos);
            } else {
                lemma_cut_split(b, pos, h, body);
                lemma_varint_round_trip(ps.len(), b, pos);
                let q = pos + h.len();
                if ps.len() <= b.len() - q {
                    lemma_dec_map_enc_truncated(*kt, *wt, ps, b, q);
                }
            }
        },
    }
}

/// A cut anywhere inside a length-prefixed byte run reads as `Truncated`:
/// either the prefix itself is cut, or fewer content bytes remain than it
/// promises.
proof fn lemma_varlen_cut(h: Seq<u8>, bs: Seq<u8>, b: Seq<u8>, pos: int)
    requires
        h == enc_varint(bs.len()),
        0 <= pos <= b.len(),
        b.len() - pos < h.len() + bs.len(),
        b.subrange(pos, b.len() as int) == (h + bs).subrange(0, b.len() - pos),
    ensures
        crate::wire::dec_varint(b, pos) matches Some(pr) ==> pr.0 > b.len() - pr.1,
        crate::wire::dec_varint(b, pos) matches Some(pr) ==> pr.0 == bs.len() && pr.1 == pos
            + h.len(),
        b.len() - pos < h.len() ==> crate::wire::dec_varint(b, pos) is None,
{
    let rem = b.len() - pos;
    if rem < h.len() {
        lemma_cut_head(b, pos, h, bs);
        lemma_varint_truncated(bs.len(), b, pos);
    } else {
        lemma_cut_split(b, pos, h, bs);
        lemma_varint_round_trip(bs.len(), b, pos);
    }
}

/// Decoding `ms.len()` elements from a strict prefix of their concatenated
/// encodings fails with `Truncated`.
proof fn lemma_dec_list_enc_truncated(e: TypeTag, ms: Seq<AbstractValue>, b: Seq<u8>, pos: int)
    requires
        forall|i: int| 0 <= i < ms.len() ==> wf(e, #[trigger] ms[i]),
        0 <= pos <= b.len(),
        b.len() - pos < enc_list(e, ms).len(),
        b.subrange(pos, b.len() as int) == enc_list(e, ms).subrange(0, b.len() - pos),
    ensures
        dec_list(e, b, pos, ms.len()) == Err::<(Seq<AbstractValue>, int), CodecError>(
            CodecError::Truncated,
        ),
    decreases tag_size(e), ms.len() + 1,
{
    let rem = b.len() - pos;
    let x = enc(e, ms[0]);
    let y = enc_list(e, ms.skip(1));
    if rem < x.len() {
        lemma_cut_head(b, pos, x, y);
        lemma_dec_enc_truncated(e, ms[0], b, pos);
    } else {
        lemma_cut_split(b, pos, x, y);
        lemma_dec_enc(e, ms[0], b, pos);
        assert forall|i: int| 0 <= i < ms.skip(1).len() implies wf(e, #[trigger] ms.skip(1)[i]) by {
            assert(ms.skip(1)[i] == ms[i + 1]);
        }
        lemma_dec_list_enc_truncated(e, ms.skip(1), b, pos + x.len());
    }
}

/// Decoding `ps.len()` pair runs from a strict prefix of their concatenated
/// encodings fails with `Truncated`.
proof fn lemma_dec_map_enc_truncated(
    k: TypeTag,
    w: TypeTag,
    ps: Seq<(AbstractValue, AbstractValue)>,
    b: Seq<u8>,
    pos: int,
)
    requires
        forall|i: int| 0 <= i < ps.len() ==> wf(k, (#[trigger] ps[i]).0) && wf(w, ps[i].1),
        0 <= pos <= b.len(),
        b.len() - pos < enc_map(k, w, ps).len(),
        b.subrange(pos, b.len() as int) == enc_map(k, w, ps).subrange(0, b.len() - pos),
    ensures
        dec_map(k, w, b, pos, ps.len()) == Err::<(Seq<(AbstractValue, AbstractValue)>, int),
            CodecError,
        >(CodecError::Truncated),
    decreases tag_size(k) + tag_size(w), ps.len() + 1,
{
    let rem = b.len() - pos;
    let xk = enc(k, ps[0].0);
    let xw = enc(w, ps[0].1);
    let y = enc_map(k, w, ps.skip(1));
    assert(xk + xw + y =~= xk + (xw + y));
    if rem < xk.len() {
        lemma_cut_head(b, pos, xk, xw + y);
        lemma_dec_enc_truncated(k, ps[0].0, b, pos);
    } else {
        lemma_cut_split(b, pos, xk, xw + y);
        lemma_dec_enc(k, ps[0].0, b, pos);
        let pos2 = pos + xk.len();
        if b.len() - pos2 < xw.len() {
            lemma_cut_head(b, pos2, xw, y);
            lemma_dec_enc_truncated(w, ps[0].1, b, pos2);
        } else {
            lemma_cut_split(b, pos2, xw, y);
            lemma_dec_enc(w, ps[0].1, b, pos2);
            assert forall|i: int| 0 <= i < ps.skip(1).len() implies wf(
                k,
                (#[trigger] ps.skip(1)[i]).0,
            ) && wf(w, ps.skip(1)[i].1) by {
                assert(ps.skip(1)[i] == ps[i + 1]);
            }
            lemma_dec_map_enc_truncated(k, w, ps.skip(1), b, pos2 + xw.len());
        }
    }
}

} // verus!
