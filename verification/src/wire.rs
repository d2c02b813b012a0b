use vstd::prelude::*;
use vstd::arithmetic::div_mod::lemma_fundamental_div_mod;

verus! {

// ---------------------------------------------------------------------------
// Variable-length unsigned integers (counts and lengths)
// ---------------------------------------------------------------------------

/// The minimal, smallest-first continuation encoding of an unbounded count:
/// each byte carries seven payload bits, least significant first, and the
/// high bit of a byte says that more bytes follow.
pub open spec fn enc_varint(n: nat) -> Seq<u8>
    decreases n,
{
    if n < 128 {
        seq![n as u8]
    } else {
        seq![(n % 128 + 128) as u8] + enc_varint(n / 128)
    }
}

/// Reading a varint at `pos`: the value and the position one past its last
/// byte, or `None` when the buffer ends inside the encoding.
pub open spec fn dec_varint(b: Seq<u8>, pos: int) -> Option<(nat, int)>
    decreases b.len() - pos,
{
    if pos < 0 || pos >= b.len() {
        None
    } else if b[pos] < 128 {
        Some((b[pos] as nat, pos + 1))
    } else {
        match dec_varint(b, pos + 1) {
            None => None,
            Some((m, q)) => Some((((b[pos] - 128) + 128 * m) as nat, q)),
        }
    }
}

/// A varint occupies at least one byte.
pub proof fn lemma_enc_varint_len(n: nat)
    ensures
        enc_varint(n).len() >= 1,
{
}

/// Reading a varint from the bytes its encoder wrote yields the encoded
/// count back and stops exactly past its last byte, whatever follows.
pub proof fn lemma_varint_round_trip(n: nat, b: Seq<u8>, pos: int)
    requires
        0 <= pos,
        pos + enc_varint(n).len() <= b.len(),
        b.subrange(pos, pos + enc_varint(n).len() as int) == enc_varint(n),
    ensures
        dec_varint(b, pos) == Some((n, pos + enc_varint(n).len() as int)),
    decreases n,
{
    let e = enc_varint(n);
    assert(b[pos] == e[0]);
    if n < 128 {
        assert(e[0] == n as u8);
    } else {
        let tail = enc_varint(n / 128);
        assert(e == seq![(n % 128 + 128) as u8] + tail);
        assert(n % 128 + 128 < 256);
        assert(b[pos] == (n % 128 + 128) as u8);
        assert(b[pos] >= 128);
        assert forall|i: int| 0 <= i < tail.len() implies b.subrange(
            pos + 1,
            pos + 1 + tail.len() as int,
        )[i] == tail[i] by {
            assert(b.subrange(pos, pos + e.len() as int)[i + 1] == e[i + 1]);
            assert(e[i + 1] == tail[i]);
        }
        assert(b.subrange(pos + 1, pos + 1 + tail.len() as int) =~= tail);
        lemma_varint_round_trip(n / 128, b, pos + 1);
        lemma_fundamental_div_mod(n as int, 128);
        assert((b[pos] - 128) + 128 * (n / 128) == n);
    }
}

/// When the buffer ends strictly inside a varint's encoding, reading it
/// fails: a cut varint is always detected.
pub proof fn lemma_varint_truncated(n: nat, b: Seq<u8>, pos: int)
    requires
        0 <= pos <= b.len(),
        b.len() - pos < enc_varint(n).len(),
        b.subrange(pos, b.len() as int) == enc_varint(n).subrange(0, b.len() - pos),
    ensures
        dec_varint(b, pos) is None,
    decreases n,
{
    if pos < b.len() {
        let e = enc_varint(n);
        assert(b[pos] == b.subrange(pos, b.len() as int)[0]);
        assert(b[pos] == e[0]);
        assert(e.len() >= 2);
        assert(n >= 128);
        let tail = enc_varint(n / 128);
        assert(e == seq![(n % 128 + 128) as u8] + tail);
        assert(n % 128 + 128 < 256);
        assert(b[pos] >= 128);
        assert forall|i: int| 0 <= i < b.len() - pos - 1 implies #[trigger] b.subrange(
            pos + 1,
            b.len() as int,
        )[i] == tail.subrange(0, b.len() - (pos + 1))[i] by {
            assert(b.subrange(pos, b.len() as int)[i + 1] == e.subrange(0, b.len() - pos)[i + 1]);
            assert(e[i + 1] == tail[i]);
        }
        assert(b.subrange(pos + 1, b.len() as int) =~= tail.subrange(0, b.len() - (pos + 1)));
        lemma_varint_truncated(n / 128, b, pos + 1);
    }
}

/// A successful varint read always moves the cursor forward and never past
/// the end of the buffer.
pub proof fn lemma_dec_varint_bounds(b: Seq<u8>, pos: int)
    requires
        0 <= pos,
    ensures
        dec_varint(b, pos) matches Some(pr) ==> pos < pr.1 <= b.len(),
    decreases b.len() - pos,
{
    if pos < b.len() && b[pos] >= 128 {
        lemma_dec_varint_bounds(b, pos + 1);
    }
}

/// Appends the varint encoding of `n`.
pub fn write_varint(out: &mut Vec<u8>, n: u64)
    ensures
        final(out)@ == old(out)@ + enc_varint(n as nat),
    decreases n,
{
    if n < 128 {
        out.push(n as u8);
        assert(out@ =~= old(out)@ + enc_varint(n as nat));
    } else {
        out.push((n % 128 + 128) as u8);
        write_varint(out, n / 128);
        assert(out@ =~= old(out)@ + enc_varint(n as nat));
    }
}

/// Reads a varint at `pos`. `None` means the buffer ended inside the
/// encoding, or the encoded count is too large for the machine (and so is
/// certainly larger than any byte count the buffer could hold).
pub fn read_varint(buf: &Vec<u8>, pos: usize) -> (r: Option<(u64, usize)>)
    requires
        pos <= buf@.len(),
    ensures
        match r {
            Some((n, q)) => dec_varint(buf@, pos as int) == Some((n as nat, q as int)) && pos < q
                <= buf@.len(),
            None => match dec_varint(buf@, pos as int) {
                Some((n, q)) => n > u64::MAX,
                None => true,
            },
        },
    decreases buf@.len() - pos,
{
    if pos >= buf.len() {
        None
    } else {
        let b = buf[pos];
        if b < 128 {
            Some((b as u64, pos + 1))
        } else {
            match read_varint(buf, pos + 1) {
                None => None,
                Some((m, q)) => {
                    if m <= 144115188075855871u64 {
                        assert(128 * m <= u64::MAX - 127);
                        Some(((b - 128) as u64 + 128 * m, q))
                    } else {
                        assert(128 * (m as nat) > u64::MAX);
                        None
                    }
                },
            }
        }
    }
}

// ---------------------------------------------------------------------------
// Fixed-width little-endian scalars
// ---------------------------------------------------------------------------

/// The `w`-byte little-endian encoding of `v` (`v` is reduced modulo 256^w).
pub open spec fn le_bytes(v: nat, w: nat) -> Seq<u8>
    decreases w,
{
    if w == 0 {
        seq![]
    } else {
        seq![(v % 256) as u8] + le_bytes(v / 256, (w - 1) as nat)
    }
}

/// The count a little-endian byte sequence stands for.
pub open spec fn le_val(b: Seq<u8>) -> nat
    decreases b.len(),
{
    if b.len() == 0 {
        0
    } else {
        b[0] as nat + 256 * le_val(b.skip(1))
    }
}

pub open spec fn pow256(w: nat) -> nat
    decreases w,
{
    if w == 0 {
        1
    } else {
        256 * pow256((w - 1) as nat)
    }
}

pub proof fn lemma_le_bytes_len(v: nat, w: nat)
    ensures
        le_bytes(v, w).len() == w,
    decreases w,
{
    if w > 0 {
        lemma_le_bytes_len(v / 256, (w - 1) as nat);
    }
}

pub proof fn lemma_le_val_bound(b: Seq<u8>)
    ensures
        le_val(b) < pow256(b.len()),
    decreases b.len(),
{
    if b.len() > 0 {
        lemma_le_val_bound(b.skip(1));
    }
}

pub proof fn lemma_pow256_increases(a: nat, c: nat)
    requires
        a <= c,
    ensures
        pow256(a) <= pow256(c),
    decreases c,
{
    if a < c {
        lemma_pow256_increases(a, (c - 1) as nat);
    }
}

/// Reading `w` little-endian bytes back gives the count the encoder wrote,
/// for any count the width can hold.
pub proof fn lemma_le_round_trip(v: nat, w: nat)
    requires
        v < pow256(w),
    ensures
        le_val(le_bytes(v, w)) == v,
    decreases w,
{
    if w > 0 {
        let tail = le_bytes(v / 256, (w - 1) as nat);
        assert((seq![(v % 256) as u8] + tail).skip(1) =~= tail);
        lemma_fundamental_div_mod(v as int, 256);
        assert(256 * (v / 256) < 256 * pow256((w - 1) as nat));
        lemma_le_round_trip(v / 256, (w - 1) as nat);
    }
}

/// Appends the `w`-byte little-endian encoding of `v`.
pub fn write_le(out: &mut Vec<u8>, v: u64, w: usize)
    ensures
        final(out)@ == old(out)@ + le_bytes(v as nat, w as nat),
    decreases w,
{
    if w == 0 {
        assert(out@ =~= old(out)@ + le_bytes(v as nat, 0));
    } else {
        out.push((v % 256) as u8);
        write_le(out, v / 256, w - 1);
        assert(out@ =~= old(out)@ + le_bytes(v as nat, w as nat));
    }
}

/// Reads `w` little-endian bytes at `pos` as a count.
pub fn read_le(buf: &Vec<u8>, pos: usize, w: usize) -> (r: u64)
    requires
        pos + w <= buf@.len(),
        w <= 8,
    ensures
        r as nat == le_val(buf@.subrange(pos as int, pos + w as int)),
    decreases w,
{
    if w == 0 {
        assert(buf@.subrange(pos as int, pos as int) =~= Seq::<u8>::empty());
        0
    } else {
        let n = buf.len();
        assert(pos + 1 <= n);
        let lo = buf[pos];
        let rest = read_le(buf, pos + 1, w - 1);
        proof {
            let whole = buf@.subrange(pos as int, pos + w as int);
            let tail = buf@.subrange(pos + 1 as int, pos + w as int);
            assert(whole.skip(1) =~= tail);
            lemma_le_val_bound(tail);
            lemma_pow256_increases(tail.len() as nat, 7);
            assert(pow256(7) == 0x100000000000000) by {
                reveal_with_fuel(pow256, 8);
            }
        }
        lo as u64 + 256 * rest
    }
}

/// Copies `len` bytes starting at `pos` into a fresh buffer.
pub fn read_bytes(buf: &Vec<u8>, pos: usize, len: usize) -> (r: Vec<u8>)
    requires
        pos + len <= buf@.len(),
    ensures
        r@ == buf@.subrange(pos as int, pos + len as int),
{
    let _n = buf.len();
    let mut v: Vec<u8> = Vec::new();
    let mut i: usize = 0;
    while i < len
        invariant
            pos + len <= buf@.len(),
            buf@.len() <= usize::MAX,
            i <= len,
            v@ == buf@.subrange(pos as int, pos + i as int),
        decreases len - i,
    {
        v.push(buf[pos + i]);
        assert(v@ =~= buf@.subrange(pos as int, pos + (i + 1) as int));
        i += 1;
    }
    v
}

/// Appends every byte of `data`.
pub fn write_bytes(out: &mut Vec<u8>, data: &Vec<u8>)
    ensures
        final(out)@ == old(out)@ + data@,
{
    let mut i: usize = 0;
    while i < data.len()
        invariant
            i <= data@.len(),
            out@ == old(out)@ + data@.subrange(0, i as int),
        decreases data@.len() - i,
    {
        out.push(data[i]);
        assert(out@ =~= old(out)@ + data@.subrange(0, (i + 1) as int));
        i += 1;
    }
    assert(out@ =~= old(out)@ + data@);
}

} // verus!
