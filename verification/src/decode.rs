use vstd::prelude::*;
use crate::error::CodecError;
use crate::tag::TypeTag;
use crate::tag::tag_size;
use crate::value::AbstractValue;
use crate::value::HostValue;
use crate::value::view_at;
use crate::value::wf_host;
use crate::wire::dec_varint;
use crate::wire::le_val;
use crate::wire::lemma_le_val_bound;
use crate::wire::pow256;
use crate::wire::read_bytes;
use crate::wire::read_le;
use crate::wire::read_varint;

verus! {

/// The unique parse of the bytes at `pos` read at tag `t`: the abstract
/// value and the cursor one past its encoding, or the error the walk stops
/// with. A count whose elements could not possibly fit in the remaining
/// bytes fails as `Truncated` at once (every encoding is at least one byte
/// long, so such a count can only come from a cut or mismatched buffer).
pub open spec fn dec(t: TypeTag, b: Seq<u8>, pos: int) -> Result<(AbstractValue, int), CodecError>
    decreases tag_size(t), 0nat,
{
    match t {
        TypeTag::Boolean => if pos + 1 <= b.len() {
            if b[pos] == 0 {
                Ok((AbstractValue::Boolean(false), pos + 1))
            } else if b[pos] == 1 {
                Ok((AbstractValue::Boolean(true), pos + 1))
            } else {
                Err(CodecError::ScalarConversion(TypeTag::Boolean))
            }
        } else {
            Err(CodecError::Truncated)
        },
        TypeTag::Text => match dec_varint(b, pos) {
            Option::None => Err(CodecError::Truncated),
            Option::Some((n, q)) => if n <= b.len() - q {
                Ok((AbstractValue::Text(b.subrange(q, q + n)), q + n))
            } else {
                Err(CodecError::Truncated)
            },
        },
        TypeTag::ByteArray => match dec_varint(b, pos) {
            Option::None => Err(CodecError::Truncated),
            Option::Some((n, q)) => if n <= b.len() - q {
                Ok((AbstractValue::Bytes(b.subrange(q, q + n)), q + n))
            } else {
                Err(CodecError::Truncated)
            },
        },
        TypeTag::Byte => if pos + 1 <= b.len() {
            Ok((AbstractValue::Byte(le_val(b.subrange(pos, pos + 1)) as u8 as i8), pos + 1))
        } else {
            Err(CodecError::Truncated)
        },
        TypeTag::Short => if pos + 2 <= b.len() {
            Ok((AbstractValue::Short(le_val(b.subrange(pos, pos + 2)) as u16 as i16), pos + 2))
        } else {
            Err(CodecError::Truncated)
        },
        TypeTag::Int => if pos + 4 <= b.len() {
            Ok((AbstractValue::Int(le_val(b.subrange(pos, pos + 4)) as u32 as i32), pos + 4))
        } else {
            Err(CodecError::Truncated)
        },
        TypeTag::Long => if pos + 8 <= b.len() {
            Ok((AbstractValue::Long(le_val(b.subrange(pos, pos + 8)) as u64 as i64), pos + 8))
        } else {
            Err(CodecError::Truncated)
        },
        TypeTag::Float => if pos + 4 <= b.len() {
            Ok((AbstractValue::Float(le_val(b.subrange(pos, pos + 4)) as u32), pos + 4))
        } else {
            Err(CodecError::Truncated)
        },
        TypeTag::Double => if pos + 8 <= b.len() {
            Ok((AbstractValue::Double(le_val(b.subrange(pos, pos + 8)) as u64), pos + 8))
        } else {
            Err(CodecError::Truncated)
        },
        TypeTag::List(e) => match dec_varint(b, pos) {
            Option::None => Err(CodecError::Truncated),
            Option::Some((n, q)) => if n <= b.len() - q {
                match dec_list(*e, b, q, n) {
                    Ok(pr) => Ok((AbstractValue::List(pr.0), pr.1)),
                    Err(er) => Err(er),
                }
            } else {
                Err(CodecError::Truncated)
            },
        },
        TypeTag::MapOf(k, w) => match dec_varint(b, pos) {
            Option::None => Err(CodecError::Truncated),
            Option::Some((n, q)) => if n <= b.len() - q {
                match dec_map(*k, *w, b, q, n) {
                    Ok(pr) => Ok((AbstractValue::MapOf(pr.0), pr.1)),
                    Err(er) => Err(er),
                }
            } else {
                Err(CodecError::Truncated)
            },
        },
    }
}

/// The unique parse of `n` consecutive elements at `pos`.
pub open spec fn dec_list(e: TypeTag, b: Seq<u8>, pos: int, n: nat) -> Result<
    (Seq<AbstractValue>, int),
    CodecError,
>
    decreases tag_size(e), n + 1,
{
    if n == 0 {
        Ok((Seq::empty(), pos))
    } else {
        match dec(e, b, pos) {
            Ok(pr) => match dec_list(e, b, pr.1, (n - 1) as nat) {
                Ok(rest) => Ok((seq![pr.0] + rest.0, rest.1)),
                Err(er) => Err(er),
            },
            Err(er) => Err(er),
        }
    }
}

/// The unique parse of `n` consecutive key-value pair runs at `pos`.
pub open spec fn dec_map(k: TypeTag, w: TypeTag, b: Seq<u8>, pos: int, n: nat) -> Result<
    (Seq<(AbstractValue, AbstractValue)>, int),
    CodecError,
>
    decreases tag_size(k) + tag_size(w), n + 1,
{
    if n == 0 {
        Ok((Seq::empty(), pos))
    } else {
        match dec(k, b, pos) {
            Ok(kp) => match dec(w, b, kp.1) {
                Ok(wp) => match dec_map(k, w, b, wp.1, (n - 1) as nat) {
                    Ok(rest) => Ok((seq![(kp.0, wp.0)] + rest.0, rest.1)),
                    Err(er) => Err(er),
                },
                Err(er) => Err(er),
            },
            Err(er) => Err(er),
        }
    }
}

/// The whole-buffer parse: a complete decode must leave the cursor exactly
/// at the end of the buffer.
pub open spec fn top_dec(t: TypeTag, b: Seq<u8>) -> Result<AbstractValue, CodecError> {
    match dec(t, b, 0) {
        Ok(pr) => if pr.1 == b.len() {
            Ok(pr.0)
        } else {
            Err(CodecError::TrailingData)
        },
        Err(er) => Err(er),
    }
}

/// Walks the bytes at `pos` in lock-step with `t` and rebuilds the value
/// they encode; returns the value with the cursor one past it, or exactly
/// the error [`dec`] assigns to these bytes.
pub fn deserialize_value(t: &TypeTag, buf: &Vec<u8>, pos: usize) -> (r: Result<
    (HostValue, usize),
    CodecError,
>)
    requires
        pos <= buf@.len(),
    ensures
        ({
            let g = dec(*t, buf@, pos as int);
            match r {
                Ok((v, q)) => g matches Ok(gp) && view_at(*t, v) == gp.0 && q as int == gp.1
                    && wf_host(*t, v) && pos <= q <= buf@.len(),
                Err(e) => g matches Err(ge) && e == ge,
            }
        }),
    decreases tag_size(*t),
{
    let len = buf.len();
    match t {
        TypeTag::Boolean => {
            if pos < len {
                let byte = buf[pos];
                if byte == 0 {
                    Ok((HostValue::Boolean(false), pos + 1))
                } else if byte == 1 {
                    Ok((HostValue::Boolean(true), pos + 1))
                } else {
                    Err(CodecError::ScalarConversion(TypeTag::Boolean))
                }
            } else {
                Err(CodecError::Truncated)
            }
        },
        TypeTag::Text => {
            match read_varint(buf, pos) {
                Option::None => {
                    proof {
                        crate::wire::lemma_dec_varint_bounds(buf@, pos as int);
                    }
                    Err(CodecError::Truncated)
                },
                Option::Some((n, q)) => {
                    if n <= (len - q) as u64 {
                        let data = read_bytes(buf, q, n as usize);
                        Ok((HostValue::Text(data), q + n as usize))
                    } else {
                        Err(CodecError::Truncated)
                    }
                },
            }
        },
        TypeTag::ByteArray => {
            match read_varint(buf, pos) {
                Option::None => {
                    proof {
                        crate::wire::lemma_dec_varint_bounds(buf@, pos as int);
                    }
                    Err(CodecError::Truncated)
                },
                Option::Some((n, q)) => {
                    if n <= (len - q) as u64 {
                        let data = read_bytes(buf, q, n as usize);
                        Ok((HostValue::Bytes(data), q + n as usize))
                    } else {
                        Err(CodecError::Truncated)
                    }
                },
            }
        },
        TypeTag::Byte => {
            if len - pos >= 1 {
                let x = read_le(buf, pos, 1);
                proof {
                    lemma_scalar_fits(buf@, pos as int, 1);
                }
                Ok((HostValue::Byte(#[verifier::truncate] ((x as u8) as i8)), pos + 1))
            } else {
                Err(CodecError::Truncated)
            }
        },
        TypeTag::Short => {
            if len - pos >= 2 {
                let x = read_le(buf, pos, 2);
                proof {
                    lemma_scalar_fits(buf@, pos as int, 2);
                }
                Ok((HostValue::Short(#[verifier::truncate] ((x as u16) as i16)), pos + 2))
            } else {
                Err(CodecError::Truncated)
            }
        },
        TypeTag::Int => {
            if len - pos >= 4 {
                let x = read_le(buf, pos, 4);
                proof {
                    lemma_scalar_fits(buf@, pos as int, 4);
                }
                Ok((HostValue::Int(#[verifier::truncate] ((x as u32) as i32)), pos + 4))
            } else {
                Err(CodecError::Truncated)
            }
        },
        TypeTag::Long => {
            if len - pos >= 8 {
                let x = read_le(buf, pos, 8);
                Ok((HostValue::Long(#[verifier::truncate] (x as i64)), pos + 8))
            } else {
                Err(CodecError::Truncated)
            }
        },
        TypeTag::Float => {
            if len - pos >= 4 {
                let x = read_le(buf, pos, 4);
                proof {
                    lemma_scalar_fits(buf@, pos as int, 4);
                }
                Ok((HostValue::Float(#[verifier::truncate] (x as u32)), pos + 4))
            } else {
                Err(CodecError::Truncated)
            }
        },
        TypeTag::Double => {
            if len - pos >= 8 {
                let x = read_le(buf, pos, 8);
                Ok((HostValue::Double(x), pos + 8))
            } else {
                Err(CodecError::Truncated)
            }
        },
        TypeTag::List(e) => {
            match read_varint(buf, pos) {
                Option::None => {
                    proof {
                        crate::wire::lemma_dec_varint_bounds(buf@, pos as int);
                    }
                    Err(CodecError::Truncated)
                },
                Option::Some((n, q0)) => {
                    if n <= (len - q0) as u64 {
                        let mut items: Vec<HostValue> = Vec::new();
                        let ghost mut vals: Seq<AbstractValue> = Seq::empty();
                        let mut q: usize = q0;
                        let mut i: u64 = 0;
                        while i < n
                            invariant
                                *t == TypeTag::List(*e),
                                tag_size(**e) < tag_size(*t),
                                pos <= buf@.len(),
                                dec_varint(buf@, pos as int) == Some((n as nat, q0 as int)),
                                n as nat <= buf@.len() - q0,
                                i <= n,
                                items@.len() == i as nat,
                                vals.len() == i as nat,
                                q0 <= q <= buf@.len(),
                                buf@.len() <= usize::MAX,
                                forall|j: int|
                                    0 <= j < i as int ==> wf_host(**e, #[trigger] items@[j]),
                                forall|j: int|
                                    0 <= j < i as int ==> vals[j] == view_at(
                                        **e,
                                        #[trigger] items@[j],
                                    ),
                                ({
                                    let g = dec_list(**e, buf@, q0 as int, n as nat);
                                    match dec_list(**e, buf@, q as int, (n - i) as nat) {
                                        Ok(pr) => g matches Ok(gp) && gp.0 == vals + pr.0 && gp.1
                                            == pr.1,
                                        Err(er) => g matches Err(ge) && ge == er,
                                    }
                                }),
                            decreases n - i,
                        {
                            match deserialize_value(e, buf, q) {
                                Ok((v, q2)) => {
                                    let ghost mv = view_at(**e, v);
                                    let ghost pr_rest = dec_list(
                                        **e,
                                        buf@,
                                        q2 as int,
                                        (n - i - 1) as nat,
                                    );
                                    items.push(v);
                                    proof {
                                        vals = vals.push(mv);
                                        match pr_rest {
                                            Ok(pr) => {
                                                assert(vals + pr.0 =~= (vals.drop_last()) + (seq![
                                                    mv,
                                                ] + pr.0));
                                            },
                                            Err(_) => {},
                                        }
                                    }
                                    q = q2;
                                    i = i + 1;
                                },
                                Err(er) => {
                                    return Err(er);
                                },
                            }
                        }
                        proof {
                            let g = dec_list(**e, buf@, q0 as int, n as nat);
                            assert(dec_list(**e, buf@, q as int, 0) matches Ok(pr) && pr.0
                                == Seq::<AbstractValue>::empty());
                            assert(g matches Ok(gp) && gp.0 == vals + Seq::<
                                AbstractValue,
                            >::empty());
                            assert(vals + Seq::<AbstractValue>::empty() =~= vals);
                            let out = HostValue::List(items);
                            assert(view_at(*t, out)->List_0 =~= vals);
                        }
                        Ok((HostValue::List(items), q))
                    } else {
                        Err(CodecError::Truncated)
                    }
                },
            }
        },
        TypeTag::MapOf(k, w) => {
            match read_varint(buf, pos) {
                Option::None => {
                    proof {
                        crate::wire::lemma_dec_varint_bounds(buf@, pos as int);
                    }
                    Err(CodecError::Truncated)
                },
                Option::Some((n, q0)) => {
                    if n <= (len - q0) as u64 {
                        let mut items: Vec<(HostValue, HostValue)> = Vec::new();
                        let ghost mut vals: Seq<(AbstractValue, AbstractValue)> = Seq::empty();
                        let mut q: usize = q0;
                        let mut i: u64 = 0;
                        while i < n
                            invariant
                                *t == TypeTag::MapOf(*k, *w),
                                tag_size(**k) < tag_size(*t),
                                tag_size(**w) < tag_size(*t),
                                pos <= buf@.len(),
                                dec_varint(buf@, pos as int) == Some((n as nat, q0 as int)),
                                n as nat <= buf@.len() - q0,
                                i <= n,
                                items@.len() == i as nat,
                                vals.len() == i as nat,
                                q0 <= q <= buf@.len(),
                                buf@.len() <= usize::MAX,
                                forall|j: int|
                                    0 <= j < i as int ==> wf_host(
                                        **k,
                                        (#[trigger] items@[j]).0,
                                    ) && wf_host(**w, items@[j].1),
                                forall|j: int|
                                    0 <= j < i as int ==> (#[trigger] vals[j]).0 == view_at(
                                        **k,
                                        items@[j].0,
                                    ) && vals[j].1 == view_at(**w, items@[j].1),
                                ({
                                    let g = dec_map(**k, **w, buf@, q0 as int, n as nat);
                                    match dec_map(**k, **w, buf@, q as int, (n - i) as nat) {
                                        Ok(pr) => g matches Ok(gp) && gp.0 == vals + pr.0 && gp.1
                                            == pr.1,
                                        Err(er) => g matches Err(ge) && ge == er,
                                    }
                                }),
                            decreases n - i,
                        {
                            let kv = match deserialize_value(k, buf, q) {
                                Ok(pr) => pr,
                                Err(er) => {
                                    return Err(er);
                                },
                            };
                            let wv = match deserialize_value(w, buf, kv.1) {
                                Ok(pr) => pr,
                                Err(er) => {
                                    return Err(er);
                                },
                            };
                            let ghost mk = view_at(**k, kv.0);
                            let ghost mw = view_at(**w, wv.0);
                            let ghost pr_rest = dec_map(
                                **k,
                                **w,
                                buf@,
                                wv.1 as int,
                                (n - i - 1) as nat,
                            );
                            let q2 = wv.1;
                            items.push((kv.0, wv.0));
                            proof {
                                vals = vals.push((mk, mw));
                                match pr_rest {
                                    Ok(pr) => {
                                        assert(vals + pr.0 =~= (vals.drop_last()) + (seq![
                                            (mk, mw),
                                        ] + pr.0));
                                    },
                                    Err(_) => {},
                                }
                            }
                            q = q2;
                            i = i + 1;
                        }
                        proof {
                            let g = dec_map(**k, **w, buf@, q0 as int, n as nat);
                            assert(dec_map(**k, **w, buf@, q as int, 0) matches Ok(pr) && pr.0
                                == Seq::<(AbstractValue, AbstractValue)>::empty());
                            assert(g matches Ok(gp) && gp.0 == vals + Seq::<
                                (AbstractValue, AbstractValue),
                            >::empty());
                            assert(vals + Seq::<(AbstractValue, AbstractValue)>::empty() =~= vals);
                            let out = HostValue::MapOf(items);
                            assert(view_at(*t, out)->MapOf_0 =~= vals);
                        }
                        Ok((HostValue::MapOf(items), q))
                    } else {
                        Err(CodecError::Truncated)
                    }
                },
            }
        },
    }
}

/// A fixed-width scalar read of `w <= 8` bytes fits the machine word.
proof fn lemma_scalar_fits(b: Seq<u8>, pos: int, w: int)
    requires
        0 <= pos,
        0 < w <= 8,
        pos + w <= b.len(),
    ensures
        le_val(b.subrange(pos, pos + w)) < pow256(w as nat),
{
    lemma_le_val_bound(b.subrange(pos, pos + w));
}

/// Deserializes one whole buffer against a resolved tag tree and checks
/// that the walk consumed every byte; leftover bytes are the way a
/// tag/byte-sequence mismatch that decoded locally is detected.
pub fn deserialize_top(t: &TypeTag, buf: &Vec<u8>) -> (r: Result<HostValue, CodecError>)
    ensures
        ({
            let g = top_dec(*t, buf@);
            match r {
                Ok(v) => g matches Ok(m) && view_at(*t, v) == m && wf_host(*t, v),
                Err(e) => g matches Err(ge) && e == ge,
            }
        }),
{
    match deserialize_value(t, buf, 0) {
        Ok((v, q)) => {
            if q == buf.len() {
                Ok(v)
            } else {
                Err(CodecError::TrailingData)
            }
        },
        Err(e) => Err(e),
    }
}

} // verus!
