//! Big-endian (network order) integers.
//!
//! Every wire format in this crate is built from fixed-width big-endian
//! fields. [`be_value`] reads a byte sequence as one number and [`be_bytes`]
//! writes a number over a fixed number of bytes; the two are inverse to each
//! other, which is what makes the codecs round-trip.

use vstd::prelude::*;

verus! {

/// 256 to the power `k`: how many values `k` bytes can tell apart.
pub open spec fn pow256(k: nat) -> nat
    decreases k,
{
    if k == 0 {
        1
    } else {
        256 * pow256((k - 1) as nat)
    }
}

/// The number a byte sequence spells, most significant byte first.
pub open spec fn be_value(s: Seq<u8>) -> nat
    decreases s.len(),
{
    if s.len() == 0 {
        0
    } else {
        be_value(s.drop_last()) * 256 + s.last() as nat
    }
}

/// The `k` low-order bytes of `n`, most significant byte first.
pub open spec fn be_bytes(n: nat, k: nat) -> Seq<u8>
    decreases k,
{
    if k == 0 {
        Seq::empty()
    } else {
        be_bytes(n / 256, (k - 1) as nat).push((n % 256) as u8)
    }
}

/// The two bytes at `i`, read as one number.
pub open spec fn be16(s: Seq<u8>, i: int) -> int {
    s[i] * 256 + s[i + 1]
}

/// The four bytes at `i`, read as one number.
pub open spec fn be32(s: Seq<u8>, i: int) -> int {
    s[i] * 0x100_0000 + s[i + 1] * 0x1_0000 + s[i + 2] * 0x100 + s[i + 3]
}

/// Writing over `k` bytes gives exactly `k` bytes.
pub proof fn lemma_be_bytes_len(n: nat, k: nat)
    ensures
        be_bytes(n, k).len() == k,
    decreases k,
{
    if k > 0 {
        lemma_be_bytes_len(n / 256, (k - 1) as nat);
    }
}

/// `k` bytes spell a number below `256^k`.
pub proof fn lemma_be_value_bound(s: Seq<u8>)
    ensures
        be_value(s) < pow256(s.len()),
    decreases s.len(),
{
    if s.len() > 0 {
        lemma_be_value_bound(s.drop_last());
    }
}

/// Reading back what was written gives the number, when it fits.
pub proof fn lemma_be_value_of_bytes(n: nat, k: nat)
    requires
        n < pow256(k),
    ensures
        be_value(be_bytes(n, k)) == n,
    decreases k,
{
    if k > 0 {
        lemma_be_value_of_bytes(n / 256, (k - 1) as nat);
        assert(be_bytes(n, k).drop_last() =~= be_bytes(n / 256, (k - 1) as nat));
    }
}

/// Writing back what was read gives the bytes.
pub proof fn lemma_be_bytes_of_value(s: Seq<u8>)
    ensures
        be_bytes(be_value(s), s.len()) == s,
    decreases s.len(),
{
    if s.len() > 0 {
        let n = be_value(s);
        let prefix = s.drop_last();
        lemma_be_bytes_of_value(prefix);
        assert(n / 256 == be_value(prefix));
        assert(n % 256 == s.last());
        assert(be_bytes(n, s.len()) =~= prefix.push(s.last()));
        assert(prefix.push(s.last()) =~= s);
    } else {
        assert(be_bytes(be_value(s), 0) =~= s);
    }
}

/// One more byte shifts the number left by eight bits.
pub proof fn lemma_be_value_push(s: Seq<u8>, b: u8)
    ensures
        be_value(s.push(b)) == be_value(s) * 256 + b,
{
    assert(s.push(b).drop_last() =~= s);
}

/// A two-byte sequence spells [`be16`].
pub proof fn lemma_be_value_2(s: Seq<u8>, i: int)
    requires
        0 <= i,
        i + 2 <= s.len(),
    ensures
        be_value(s.subrange(i, i + 2)) == be16(s, i),
{
    reveal_with_fuel(be_value, 3);
    let t = s.subrange(i, i + 2);
    assert(t.drop_last().drop_last() =~= Seq::<u8>::empty());
}

/// A four-byte sequence spells [`be32`].
pub proof fn lemma_be_value_4(s: Seq<u8>, i: int)
    requires
        0 <= i,
        i + 4 <= s.len(),
    ensures
        be_value(s.subrange(i, i + 4)) == be32(s, i),
{
    reveal_with_fuel(be_value, 5);
    let t = s.subrange(i, i + 4);
    assert(t.drop_last().drop_last().drop_last().drop_last() =~= Seq::<u8>::empty());
}

/// Concrete widths of the powers in use.
pub proof fn lemma_pow256_values()
    ensures
        pow256(1) == 0x100,
        pow256(2) == 0x1_0000,
        pow256(4) == 0x1_0000_0000,
        pow256(8) == 0x1_0000_0000_0000_0000,
        pow256(16) == 0x1_0000_0000_0000_0000_0000_0000_0000_0000,
{
    reveal_with_fuel(pow256, 17);
}

/// Reads the two bytes at `i`.
pub fn read_u16(s: &[u8], i: usize) -> (v: u16)
    requires
        i + 2 <= s@.len(),
    ensures
        v == be16(s@, i as int),
{
    s[i] as u16 * 256 + s[i + 1] as u16
}

/// Reads the four bytes at `i`.
pub fn read_u32(s: &[u8], i: usize) -> (v: u32)
    requires
        i + 4 <= s@.len(),
    ensures
        v == be32(s@, i as int),
{
    s[i] as u32 * 0x100_0000 + s[i + 1] as u32 * 0x1_0000 + s[i + 2] as u32 * 0x100
        + s[i + 3] as u32
}

/// Reads the sixteen bytes at `i`.
pub fn read_u128(s: &[u8], i: usize) -> (v: u128)
    requires
        i + 16 <= s@.len(),
    ensures
        v == be_value(s@.subrange(i as int, i + 16)),
{
    let mut v: u128 = 0;
    let mut k: usize = 0;
    assert(s@.subrange(i as int, i as int) =~= Seq::<u8>::empty());
    while k < 16
        invariant
            k <= 16,
            i + 16 <= s.len(),
            v == be_value(s@.subrange(i as int, i + k)),
        decreases 16 - k,
    {
        proof {
            let t = s@.subrange(i as int, i + k);
            lemma_be_value_bound(t);
            lemma_pow256_mono(k as nat, 15);
            reveal_with_fuel(pow256, 16);
            lemma_be_value_push(t, s@[i + k]);
            assert(t.push(s@[i + k]) =~= s@.subrange(i as int, i + k + 1));
        }
        v = v * 256 + s[i + k] as u128;
        k = k + 1;
    }
    v
}

/// More bytes tell apart at least as many values.
pub proof fn lemma_pow256_mono(j: nat, k: nat)
    requires
        j <= k,
    ensures
        pow256(j) <= pow256(k),
    decreases k,
{
    if j < k {
        lemma_pow256_mono(j, (k - 1) as nat);
    }
}

/// Appends `v` as two bytes.
pub fn push_u16(out: &mut Vec<u8>, v: u16)
    ensures
        final(out)@ == old(out)@ + be_bytes(v as nat, 2),
        final(out)@ == old(out)@ + bytes16(v),
{
    out.push((v / 256) as u8);
    out.push((v % 256) as u8);
    proof {
        reveal_with_fuel(be_bytes, 3);
        assert(out@ =~= old(out)@ + be_bytes(v as nat, 2));
        assert(out@ =~= old(out)@ + bytes16(v));
    }
}

/// Appends `v` as four bytes.
pub fn push_u32(out: &mut Vec<u8>, v: u32)
    ensures
        final(out)@ == old(out)@ + be_bytes(v as nat, 4),
        final(out)@ == old(out)@ + bytes32(v),
{
    out.push((v / 0x100_0000) as u8);
    out.push((v / 0x1_0000 % 256) as u8);
    out.push((v / 0x100 % 256) as u8);
    out.push((v % 256) as u8);
    proof {
        reveal_with_fuel(be_bytes, 5);
        assert(out@ =~= old(out)@ + be_bytes(v as nat, 4));
        assert(out@ =~= old(out)@ + bytes32(v));
    }
}

/// The `k` low-order bytes of `v`.
pub fn be_vec(v: u128, k: usize) -> (out: Vec<u8>)
    ensures
        out@ == be_bytes(v as nat, k as nat),
        out@.len() == k,
{
    proof {
        lemma_be_bytes_len(v as nat, k as nat);
    }
    let mut rev: Vec<u8> = Vec::new();
    let mut rest: u128 = v;
    let mut j: usize = 0;
    while j < k
        invariant
            j <= k,
            rev@.len() == j,
            be_bytes(v as nat, k as nat) == be_bytes(rest as nat, (k - j) as nat) + rev@.reverse(),
        decreases k - j,
    {
        let ghost before = rev@;
        let ghost tail = rest as nat;
        rev.push((rest % 256) as u8);
        rest = rest / 256;
        proof {
            assert(rev@.reverse() =~= seq![(tail % 256) as u8] + before.reverse());
            assert(be_bytes(tail, (k - j) as nat) + before.reverse() =~= be_bytes(
                rest as nat,
                (k - j - 1) as nat,
            ) + rev@.reverse());
        }
        j = j + 1;
    }
    let mut out: Vec<u8> = Vec::new();
    let mut i: usize = k;
    assert(be_bytes(v as nat, k as nat) =~= rev@.reverse());
    while i > 0
        invariant
            i <= k,
            rev@.len() == k,
            out@ =~= rev@.reverse().subrange(0, k - i),
        decreases i,
    {
        i = i - 1;
        out.push(rev[i]);
    }
    assert(out@ =~= rev@.reverse());
    out
}

/// The first byte pins a big-endian number to one part in 256.
pub proof fn lemma_be_value_first(s: Seq<u8>)
    requires
        s.len() > 0,
    ensures
        s[0] * pow256((s.len() - 1) as nat) <= be_value(s) < (s[0] + 1) * pow256(
            (s.len() - 1) as nat,
        ),
    decreases s.len(),
{
    if s.len() == 1 {
        assert(s.drop_last() =~= Seq::<u8>::empty());
        assert(be_value(s) == s[0]);
        assert(pow256(0) == 1);
    } else {
        let p = pow256((s.len() - 2) as nat);
        lemma_be_value_first(s.drop_last());
        assert(pow256((s.len() - 1) as nat) == 256 * p);
        let v = be_value(s.drop_last());
        let f = s[0] as int;
        assert(f * (256 * p) == 256 * (f * p)) by (nonlinear_arith);
        assert((f + 1) * (256 * p) == 256 * ((f + 1) * p)) by (nonlinear_arith);
    }
}

/// The two bytes of a number.
pub open spec fn bytes16(v: u16) -> Seq<u8> {
    seq![(v / 256) as u8, (v % 256) as u8]
}

/// The four bytes of a number.
pub open spec fn bytes32(v: u32) -> Seq<u8> {
    seq![
        (v / 0x100_0000) as u8,
        (v / 0x1_0000 % 256) as u8,
        (v / 256 % 256) as u8,
        (v % 256) as u8,
    ]
}

/// Reading two bytes back.
pub proof fn lemma_bytes16(v: u16)
    ensures
        be16(bytes16(v), 0) == v,
{
}

/// Reading four bytes back.
pub proof fn lemma_bytes32(v: u32)
    ensures
        be32(bytes32(v), 0) == v,
{
}

} // verus!
