//! The Internet checksum (RFC 1071).

use vstd::prelude::*;

use crate::bigendian::{be16, be_bytes};

verus! {

/// The sum of the 16-bit words of `s`; an odd last byte counts as the high
/// half of a word.
pub open spec fn word_sum(s: Seq<u8>) -> nat
    decreases s.len(),
{
    if s.len() == 0 {
        0
    } else if s.len() == 1 {
        s[0] as nat * 256
    } else {
        (be16(s, 0) + word_sum(s.skip(2))) as nat
    }
}

/// A sum folded to 16 bits with end-around carry: the number in 1..=65535
/// that it equals modulo 65535, and 0 only for 0.
pub open spec fn ones_fold(n: nat) -> nat {
    if n == 0 {
        0
    } else {
        ((n - 1) % 65535 + 1) as nat
    }
}

/// The Internet checksum of `s`.
pub open spec fn checksum_of(s: Seq<u8>) -> u16 {
    (0xffff - ones_fold(word_sum(s))) as u16
}

/// A byte sequence whose checksum field makes the whole sum to zero.
pub open spec fn checksum_verifies(s: Seq<u8>) -> bool {
    checksum_of(s) == 0
}

/// Folding one carry keeps the folded value.
proof fn lemma_fold_step(n: nat)
    requires
        n > 0xffff,
    ensures
        ones_fold(n % 0x1_0000 + n / 0x1_0000) == ones_fold(n),
        0 < n % 0x1_0000 + n / 0x1_0000 < n,
{
    let q = n / 0x1_0000;
    let m = n % 0x1_0000 + q;
    assert(n == m + q * 65535);
    vstd::arithmetic::div_mod::lemma_mod_multiples_vanish(q as int, m - 1, 65535);
    assert(65535 * q + (m - 1) == n - 1);
}

/// Words may be summed in two parts, split at an even offset.
pub proof fn lemma_word_sum_concat(a: Seq<u8>, b: Seq<u8>)
    requires
        a.len() % 2 == 0,
    ensures
        word_sum(a + b) == word_sum(a) + word_sum(b),
    decreases a.len(),
{
    if a.len() == 0 {
        assert(a + b =~= b);
    } else {
        let t = a.skip(2);
        lemma_word_sum_concat(t, b);
        assert((a + b).skip(2) =~= t + b);
        assert(be16(a + b, 0) == be16(a, 0));
    }
}

/// A sum of words is bounded by their number.
pub proof fn lemma_word_sum_bound(s: Seq<u8>)
    ensures
        word_sum(s) <= (s.len() + 1) / 2 * 0xffff,
    decreases s.len(),
{
    if s.len() >= 2 {
        lemma_word_sum_bound(s.skip(2));
    }
}

/// A two-byte big-endian number is one word.
pub proof fn lemma_word_sum_u16(v: u16)
    ensures
        word_sum(be_bytes(v as nat, 2)) == v,
{
    reveal_with_fuel(be_bytes, 3);
    reveal_with_fuel(word_sum, 2);
    let s = be_bytes(v as nat, 2);
    assert(s =~= seq![(v / 256) as u8, (v % 256) as u8]);
    assert(s.skip(2) =~= Seq::<u8>::empty());
}

/// The checksum of `s` when `seed` (a pseudo-header sum) counts too.
pub open spec fn seeded_checksum(seed: nat, s: Seq<u8>) -> u16 {
    (0xffff - ones_fold(seed + word_sum(s))) as u16
}

/// Writing the checksum over a zeroed field at an even offset makes the whole
/// verify, whatever pseudo-header counts too: this is what lets a receiver
/// check it.
pub proof fn lemma_seeded_verifies(seed: nat, a: Seq<u8>, b: Seq<u8>)
    requires
        a.len() % 2 == 0,
    ensures
        seeded_checksum(
            seed,
            a + be_bytes(seeded_checksum(seed, a + seq![0u8, 0u8] + b) as nat, 2) + b,
        ) == 0,
{
    let z = a + seq![0u8, 0u8] + b;
    let c = seeded_checksum(seed, z);
    let zero = seq![0u8, 0u8];
    let field = be_bytes(c as nat, 2);
    crate::bigendian::lemma_be_bytes_len(c as nat, 2);
    lemma_word_sum_concat(a + zero, b);
    lemma_word_sum_concat(a, zero);
    lemma_word_sum_concat(a + field, b);
    lemma_word_sum_concat(a, field);
    lemma_word_sum_u16(c);
    assert(word_sum(zero) == 0) by {
        reveal_with_fuel(word_sum, 2);
        assert(zero.skip(2) =~= Seq::<u8>::empty());
    }
    let w = seed + word_sum(z);
    let total = seed + word_sum(a + field + b);
    assert(total == w + c);
    if w == 0 {
        assert(c == 0xffff);
    } else {
        let k = (w - 1) / 65535;
        vstd::arithmetic::div_mod::lemma_fundamental_div_mod(w - 1, 65535);
        assert(total - 1 == 65535 * k + 65534);
        vstd::arithmetic::div_mod::lemma_mod_multiples_vanish(k, 65534, 65535);
    }
}

/// Writing the checksum over a zeroed field at an even offset makes the whole
/// verify.
pub proof fn lemma_checksum_verifies(a: Seq<u8>, b: Seq<u8>)
    requires
        a.len() % 2 == 0,
    ensures
        checksum_verifies(a + be_bytes(checksum_of(a + seq![0u8, 0u8] + b) as nat, 2) + b),
{
    lemma_seeded_verifies(0, a, b);
}

/// Folds a 32-bit sum to 16 bits.
pub(crate) fn fold(sum: u32) -> (r: u16)
    ensures
        r == ones_fold(sum as nat),
{
    let mut s: u32 = sum;
    while s > 0xffff
        invariant
            ones_fold(s as nat) == ones_fold(sum as nat),
        decreases s,
    {
        proof {
            lemma_fold_step(s as nat);
        }
        s = s % 0x1_0000 + s / 0x1_0000;
    }
    proof {
        if s > 0 {
            vstd::arithmetic::div_mod::lemma_small_mod((s - 1) as nat, 65535);
        }
    }
    s as u16
}

/// Adds the words of `data` to `start`.
pub(crate) fn sum_words(data: &[u8], start: u32) -> (sum: u32)
    requires
        start + word_sum(data@) <= u32::MAX,
    ensures
        sum == start + word_sum(data@),
{
    let n: usize = data.len();
    let mut sum: u32 = start;
    let mut i: usize = 0;
    assert(data@.skip(0) =~= data@);
    while i < n && n - i >= 2
        invariant
            i <= n,
            n == data@.len(),
            sum + word_sum(data@.skip(i as int)) == start + word_sum(data@),
            start + word_sum(data@) <= u32::MAX,
        decreases n - i,
    {
        proof {
            let rest = data@.skip(i as int);
            assert(rest.skip(2) =~= data@.skip(i + 2));
        }
        sum = sum + (data[i] as u32 * 256 + data[i + 1] as u32);
        i = i + 2;
    }
    if i < n {
        sum = sum + data[i] as u32 * 256;
    }
    sum
}

/// Internet checksum (RFC 1071) over a byte slice.
pub fn ipv4_checksum(data: &[u8]) -> (c: u16)
    requires
        word_sum(data@) <= u32::MAX,
    ensures
        c == checksum_of(data@),
{
    let sum: u32 = sum_words(data, 0);
    0xffff - fold(sum)
}

/// The checksum is what is missing from the sum of the words to a multiple of
/// 65535, so a sequence verifies exactly if its words, not all zero, sum to
/// such a multiple. Two bytes are a word, high byte first; one left over is the
/// high byte of a word.
pub proof fn lemma_checksum_meaning(s: Seq<u8>, a: u8, b: u8)
    ensures
        (word_sum(s) + checksum_of(s)) % 65535 == 0,
        checksum_verifies(s) <==> word_sum(s) > 0 && word_sum(s) % 65535 == 0,
        word_sum(Seq::empty()) == 0,
        word_sum(seq![a]) == a * 256,
        word_sum(seq![a, b] + s) == a * 256 + b + word_sum(s),
{
    let n = word_sum(s);
    if n > 0 {
        let r = (n - 1) % 65535;
        let q = (n - 1) / 65535;
        assert(n - 1 == q * 65535 + r);
        assert(checksum_of(s) == 65534 - r);
        assert(n + checksum_of(s) == (q + 1) * 65535);
    }
    let t = seq![a, b] + s;
    assert(t.skip(2) =~= s);
}

/// A checksum that starts from a sum is what is missing from that sum and the
/// words together to a multiple of 65535.
pub proof fn lemma_seeded_meaning(seed: nat, s: Seq<u8>)
    ensures
        (seed + word_sum(s) + seeded_checksum(seed, s)) % 65535 == 0,
        seeded_checksum(seed, s) == 0 <==> seed + word_sum(s) > 0 && (seed + word_sum(s)) % 65535
            == 0,
{
    let n = seed + word_sum(s);
    if n > 0 {
        let r = (n - 1) % 65535;
        let q = (n - 1) / 65535;
        assert(n - 1 == q * 65535 + r);
        assert(seeded_checksum(seed, s) == 65534 - r);
        assert(n + seeded_checksum(seed, s) == (q + 1) * 65535);
    }
}

} // verus!
