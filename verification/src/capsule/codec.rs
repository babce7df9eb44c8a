//! QUIC variable-length integers (RFC 9000 §16).

use bytes::BytesMut;
use vstd::prelude::*;
use vstd::slice::slice_subrange;

use crate::bigendian::{
    be_bytes, be_value, be_vec, lemma_be_bytes_len, lemma_be_value_bound, lemma_be_value_first,
    lemma_be_value_of_bytes, lemma_be_value_push, lemma_pow256_mono, lemma_pow256_values, pow256,
};
use crate::buf::{append, buffered, has_room};
use crate::error::DecodeError;

verus! {

/// Maximum value encodable as a QUIC variable-length integer: 2^62 - 1.
pub const VARINT_MAX: u64 = 0x3fff_ffff_ffff_ffff;

/// How many bytes the shortest encoding of `val` takes.
pub open spec fn varint_width(val: u64) -> nat {
    if val <= 63 {
        1
    } else if val <= 16383 {
        2
    } else if val <= 1_073_741_823 {
        4
    } else {
        8
    }
}

/// The two length bits, at the top of a `width`-byte encoding.
pub open spec fn varint_mark(width: nat) -> nat {
    if width == 1 {
        0
    } else if width == 2 {
        0x4000
    } else if width == 4 {
        0x8000_0000
    } else {
        0xc000_0000_0000_0000
    }
}

/// The encoding of `val`.
pub open spec fn varint_bytes(val: u64) -> Seq<u8> {
    be_bytes(varint_mark(varint_width(val)) + val as nat, varint_width(val))
}

/// The length that the top two bits of the first byte announce.
pub open spec fn announced_width(first: u8) -> nat {
    if first < 0x40 {
        1
    } else if first < 0x80 {
        2
    } else if first < 0xc0 {
        4
    } else {
        8
    }
}

/// The integer at the front of `s` and its length, if it is all there.
pub open spec fn varint_at(s: Seq<u8>) -> Option<(u64, nat)> {
    if s.len() == 0 || s.len() < announced_width(s[0]) {
        None
    } else {
        let w = announced_width(s[0]);
        Some(((be_value(s.take(w as int)) - varint_mark(w)) as u64, w))
    }
}

/// The value of a complete encoding lies in the range of its length.
pub proof fn lemma_varint_range(s: Seq<u8>)
    requires
        s.len() > 0,
        s.len() >= announced_width(s[0]),
    ensures
        varint_mark(announced_width(s[0])) <= be_value(s.take(announced_width(s[0]) as int)),
        be_value(s.take(announced_width(s[0]) as int)) - varint_mark(announced_width(s[0]))
            <= VARINT_MAX,
{
    let w = announced_width(s[0]);
    let t = s.take(w as int);
    lemma_be_value_first(t);
    lemma_pow256_values();
    reveal_with_fuel(pow256, 9);
    assert(t[0] == s[0]);
    let p = pow256((w - 1) as nat);
    let f = s[0] as int;
    if w == 1 {
        assert((f + 1) * p == f + 1) by (nonlinear_arith)
            requires
                p == 1,
        ;
    } else if w == 2 {
        assert(0x40 * p <= f * p <= 0x7f * p) by (nonlinear_arith)
            requires
                0x40 <= f <= 0x7f,
        ;
        assert((f + 1) * p == f * p + p) by (nonlinear_arith);
    } else if w == 4 {
        assert(0x80 * p <= f * p <= 0xbf * p) by (nonlinear_arith)
            requires
                0x80 <= f <= 0xbf,
        ;
        assert((f + 1) * p == f * p + p) by (nonlinear_arith);
    } else {
        assert(0xc0 * p <= f * p <= 0xff * p) by (nonlinear_arith)
            requires
                0xc0 <= f <= 0xff,
        ;
        assert((f + 1) * p == f * p + p) by (nonlinear_arith);
    }
}

/// The length and first byte of an encoding.
pub proof fn lemma_varint_bytes(val: u64)
    requires
        val <= VARINT_MAX,
    ensures
        varint_bytes(val).len() == varint_width(val),
        announced_width(varint_bytes(val)[0]) == varint_width(val),
        be_value(varint_bytes(val)) == varint_mark(varint_width(val)) + val,
{
    let w = varint_width(val);
    let n = varint_mark(w) + val as nat;
    let enc = varint_bytes(val);
    lemma_pow256_values();
    lemma_be_bytes_len(n, w);
    lemma_be_value_of_bytes(n, w);
    lemma_be_value_first(enc);
    reveal_with_fuel(pow256, 9);
    let p = pow256((w - 1) as nat);
    let f = enc[0] as int;
    assert((f + 1) * p == f * p + p) by (nonlinear_arith);
    if w == 2 {
        assert(0x40 <= f < 0x80) by (nonlinear_arith)
            requires
                f * p <= n < f * p + p,
                0x40 * p <= n < 0x80 * p,
                p > 0,
        ;
    } else if w == 4 {
        assert(0x80 <= f < 0xc0) by (nonlinear_arith)
            requires
                f * p <= n < f * p + p,
                0x80 * p <= n < 0xc0 * p,
                p > 0,
        ;
    } else if w == 8 {
        assert(0xc0 <= f) by (nonlinear_arith)
            requires
                f * p <= n < f * p + p,
                0xc0 * p <= n,
                p > 0,
        ;
    }
}

/// Reading what was written gives the value back, whatever follows it, and
/// consumes exactly what was written.
pub proof fn lemma_varint_roundtrip(val: u64, rest: Seq<u8>)
    requires
        val <= VARINT_MAX,
    ensures
        varint_at(varint_bytes(val) + rest) == Some((val, varint_bytes(val).len())),
{
    lemma_varint_bytes(val);
    let s = varint_bytes(val) + rest;
    assert(s.take(varint_width(val) as int) =~= varint_bytes(val));
}

/// Returns the encoded length in bytes for a given value.
pub fn varint_len(val: u64) -> (r: Result<usize, DecodeError>)
    ensures
        val <= VARINT_MAX ==> r == Ok::<usize, DecodeError>(varint_width(val) as usize),
        val > VARINT_MAX ==> r == Err::<usize, DecodeError>(DecodeError::InvalidVarInt),
{
    if val <= 63 {
        Ok(1)
    } else if val <= 16383 {
        Ok(2)
    } else if val <= 1_073_741_823 {
        Ok(4)
    } else if val <= VARINT_MAX {
        Ok(8)
    } else {
        Err(DecodeError::InvalidVarInt)
    }
}

/// What is left of `s` where no varint stands at its front: the byte that
/// tells the length is consumed.
pub open spec fn after_refused(s: Seq<u8>) -> Seq<u8> {
    if s.len() == 0 {
        s
    } else {
        s.skip(1)
    }
}

/// Read a QUIC-style variable-length integer (RFC 9000 §16) off the front of
/// `buf`. An integer that is cut short costs its first byte.
pub fn read_varint(buf: &mut &[u8]) -> (r: Result<u64, DecodeError>)
    ensures
        match varint_at(old(buf)@) {
            Some((v, n)) => {
                &&& r == Ok::<u64, DecodeError>(v)
                &&& v <= VARINT_MAX
                &&& 1 <= n <= old(buf)@.len()
                &&& final(buf)@ == old(buf)@.skip(n as int)
            },
            None => {
                &&& r == Err::<u64, DecodeError>(DecodeError::Underflow)
                &&& final(buf)@ == after_refused(old(buf)@)
            },
        },
{
    let s: &[u8] = *buf;
    let total: usize = s.len();
    if total == 0 {
        return Err(DecodeError::Underflow);
    }
    let first: u8 = s[0];
    let width: usize = if first < 0x40 {
        1
    } else if first < 0x80 {
        2
    } else if first < 0xc0 {
        4
    } else {
        8
    };
    if total < width {
        *buf = slice_subrange(s, 1, total);
        return Err(DecodeError::Underflow);
    }
    let mut raw: u64 = 0;
    let mut i: usize = 0;
    assert(s@.take(0) =~= Seq::<u8>::empty());
    while i < width
        invariant
            i <= width <= 8,
            width <= s@.len(),
            raw == be_value(s@.take(i as int)),
        decreases width - i,
    {
        proof {
            let t = s@.take(i as int);
            lemma_be_value_bound(t);
            lemma_pow256_mono(i as nat, 7);
            reveal_with_fuel(pow256, 8);
            lemma_be_value_push(t, s@[i as int]);
            assert(t.push(s@[i as int]) =~= s@.take(i + 1));
        }
        raw = raw * 256 + s[i] as u64;
        i = i + 1;
    }
    proof {
        lemma_varint_range(s@);
    }
    let mark: u64 = if width == 1 {
        0
    } else if width == 2 {
        0x4000
    } else if width == 4 {
        0x8000_0000
    } else {
        0xc000_0000_0000_0000
    };
    *buf = slice_subrange(s, width, total);
    Ok(raw - mark)
}

/// Write a QUIC-style variable-length integer (RFC 9000 §16). A value too
/// large to encode leaves the buffer as it was.
pub fn write_varint(buf: &mut BytesMut, val: u64) -> (r: Result<(), DecodeError>)
    requires
        has_room(*old(buf), varint_width(val)),
    ensures
        val <= VARINT_MAX ==> r is Ok && buffered(*final(buf)) == buffered(*old(buf))
            + varint_bytes(val),
        val > VARINT_MAX ==> r == Err::<(), DecodeError>(DecodeError::InvalidVarInt) && buffered(
            *final(buf),
        ) == buffered(*old(buf)),
{
    let len: usize = match varint_len(val) {
        Ok(len) => len,
        Err(e) => {
            return Err(e);
        },
    };
    let mark: u64 = if len == 1 {
        0
    } else if len == 2 {
        0x4000
    } else if len == 4 {
        0x8000_0000
    } else {
        0xc000_0000_0000_0000
    };
    let enc = be_vec((mark + val) as u128, len);
    append(buf, enc.as_slice());
    Ok(())
}

/// A variable-length integer on the wire: the top two bits of the first byte
/// say how long it is, and the other bits are the value, high byte first.
pub proof fn lemma_varint_layout(val: u64)
    requires
        val <= VARINT_MAX,
    ensures
        ({
            let b = varint_bytes(val);
            &&& val < 0x40 ==> b == seq![val as u8]
            &&& 0x40 <= val < 0x4000 ==> b.len() == 2 && b[0] / 64 == 1 && (b[0] % 64) * 256 + b[1]
                == val
            &&& 0x4000 <= val < 0x4000_0000 ==> b.len() == 4 && b[0] / 64 == 2 && (b[0] % 64)
                * 0x100_0000 + b[1] * 0x1_0000 + b[2] * 256 + b[3] == val
            &&& 0x4000_0000 <= val ==> b.len() == 8 && b[0] / 64 == 3 && (b[0] % 64)
                * 0x100_0000_0000_0000 + b[1] * 0x1_0000_0000_0000 + b[2] * 0x100_0000_0000 + b[3]
                * 0x1_0000_0000 + b[4] * 0x100_0000 + b[5] * 0x1_0000 + b[6] * 256 + b[7] == val
        }),
{
    let b = varint_bytes(val);
    lemma_varint_bytes(val);
    lemma_varint_roundtrip(val, Seq::empty());
    assert(b + Seq::<u8>::empty() =~= b);
    lemma_varint_read(b);
    if val < 0x40 {
        assert(b =~= seq![val as u8]);
    }
}

/// What is read: the top two bits of the first byte say how many bytes there
/// must be, and the value is the rest of them, high byte first.
pub proof fn lemma_varint_read(s: Seq<u8>)
    ensures
        s.len() == 0 ==> varint_at(s) is None,
        s.len() > 0 && s[0] / 64 == 0 ==> varint_at(s) == Some((s[0] as u64, 1nat)),
        s.len() > 0 && s[0] / 64 == 1 ==> (varint_at(s) is Some <==> s.len() >= 2),
        s.len() > 0 && s[0] / 64 == 1 ==> (varint_at(s) matches Some((v, w)) ==> w == 2 && v == (
        s[0] - 64) * 256 + s[1]),
        s.len() > 0 && s[0] / 64 == 2 ==> (varint_at(s) is Some <==> s.len() >= 4),
        s.len() > 0 && s[0] / 64 == 2 ==> (varint_at(s) matches Some((v, w)) ==> w == 4 && v == (
        s[0] - 128) * 0x100_0000 + s[1] * 0x1_0000 + s[2] * 256 + s[3]),
        s.len() > 0 && s[0] / 64 == 3 ==> (varint_at(s) is Some <==> s.len() >= 8),
        s.len() > 0 && s[0] / 64 == 3 ==> (varint_at(s) matches Some((v, w)) ==> w == 8 && v == (
        s[0] - 192) * 0x100_0000_0000_0000 + s[1] * 0x1_0000_0000_0000 + s[2] * 0x100_0000_0000
            + s[3] * 0x1_0000_0000 + s[4] * 0x100_0000 + s[5] * 0x1_0000 + s[6] * 256 + s[7]),
{
    assert(be_value(Seq::<u8>::empty()) == 0);
    if s.len() >= 1 {
        lemma_be_value_next(s, 0);
        assert(s.take(0) =~= Seq::<u8>::empty());
    }
    if s.len() >= 2 {
        lemma_be_value_next(s, 1);
    }
    if s.len() >= 4 {
        lemma_be_value_next(s, 2);
        lemma_be_value_next(s, 3);
    }
    if s.len() >= 8 {
        lemma_be_value_next(s, 4);
        lemma_be_value_next(s, 5);
        lemma_be_value_next(s, 6);
        lemma_be_value_next(s, 7);
    }
}

proof fn lemma_be_value_next(s: Seq<u8>, i: int)
    requires
        0 <= i < s.len(),
    ensures
        be_value(s.take(i + 1)) == be_value(s.take(i)) * 256 + s[i],
{
    assert(s.take(i + 1).drop_last() =~= s.take(i));
}

} // verus!
