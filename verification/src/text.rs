//! Text as sequences of characters: numbers, addresses, and the small parsing
//! steps that command output and headers need.

use base64::Engine;
use vstd::prelude::*;
use vstd::utf8::{decode_utf8, encode_utf8, valid_utf8};

use crate::net::{IpAddr, IpNet, Ipv4Addr, Ipv6Addr, SocketAddr};

verus! {

/// `String::push`: appends one character.
pub assume_specification[ String::push ](s: &mut String, ch: char)
    ensures
        final(s)@ == old(s)@.push(ch),
;

/// The characters of a string.
pub fn chars_of(s: &str) -> (v: Vec<char>)
    ensures
        v@ == s@,
{
    let mut v: Vec<char> = Vec::new();
    for c in it: s.chars()
        invariant
            it.seq() == s@,
            v@ == s@.take(it.index() as int),
    {
        v.push(c);
        proof {
            assert(s@.take(it.index() + 1) =~= s@.take(it.index() as int).push(c));
        }
    }
    proof {
        assert(s@.take(s@.len() as int) =~= s@);
    }
    v
}

/// The string of some characters.
pub fn text_of(chars: &[char]) -> (s: String)
    ensures
        s@ == chars@,
{
    let mut s = String::new();
    let mut i: usize = 0;
    while i < chars.len()
        invariant
            i <= chars@.len(),
            s@ == chars@.take(i as int),
        decreases chars@.len() - i,
    {
        s.push(chars[i]);
        i = i + 1;
        proof {
            assert(chars@.take(i as int) =~= chars@.take(i - 1).push(chars@[i - 1]));
        }
    }
    proof {
        assert(chars@.take(chars@.len() as int) =~= chars@);
    }
    s
}

/// The decimal digit of a number below ten.
pub open spec fn digit(n: nat) -> char {
    (48 + n) as char
}

/// A number in decimal.
pub open spec fn decimal(n: nat) -> Seq<char>
    decreases n,
{
    if n < 10 {
        seq![digit(n)]
    } else {
        decimal(n / 10).push(digit(n % 10))
    }
}

fn digit_char(n: u64) -> (c: char)
    requires
        n < 10,
    ensures
        c == digit(n as nat),
{
    (48 + n as u8) as char
}

/// Appends a number in decimal.
pub fn push_decimal(out: &mut String, n: u64)
    ensures
        final(out)@ == old(out)@ + decimal(n as nat),
    decreases n,
{
    if n >= 10 {
        push_decimal(out, n / 10);
    }
    out.push(digit_char(n % 10));
    proof {
        assert(out@ =~= old(out)@ + decimal(n as nat));
    }
}

/// Four numbers with dots between.
pub open spec fn dotted(bits: u32) -> Seq<char> {
    decimal((bits / 0x100_0000) as nat) + seq!['.'] + decimal((bits / 0x1_0000 % 256) as nat)
        + seq!['.'] + decimal((bits / 256 % 256) as nat) + seq!['.'] + decimal(
        (bits % 256) as nat,
    )
}

fn push_dotted(out: &mut String, bits: u32)
    ensures
        final(out)@ == old(out)@ + dotted(bits),
{
    push_decimal(out, (bits / 0x100_0000) as u64);
    out.push('.');
    push_decimal(out, (bits / 0x1_0000 % 256) as u64);
    out.push('.');
    push_decimal(out, (bits / 256 % 256) as u64);
    out.push('.');
    push_decimal(out, (bits % 256) as u64);
    proof {
        assert(out@ =~= old(out)@ + dotted(bits));
    }
}

/// The text of an IPv6 address.
pub uninterp spec fn v6_text(bits: u128) -> Seq<char>;

/// `Display` of an IPv6 address: its text depends on the address alone.
#[verifier::external_body]
fn v6_to_string(bits: u128) -> (s: String)
    ensures
        s@ == v6_text(bits),
{
    ipnet::Ipv6Net::new_assert(bits.into(), 128).addr().to_string()
}

/// The text of an IP address.
pub open spec fn ip_text(a: IpAddr) -> Seq<char> {
    match a {
        IpAddr::V4(v4) => dotted(v4.bits),
        IpAddr::V6(v6) => v6_text(v6.bits),
    }
}

/// Appends the text of an IP address.
pub fn push_ip(out: &mut String, a: IpAddr)
    ensures
        final(out)@ == old(out)@ + ip_text(a),
{
    match a {
        IpAddr::V4(v4) => push_dotted(out, v4.bits),
        IpAddr::V6(v6) => {
            let t = v6_to_string(v6.bits);
            out.append(t.as_str());
        },
    }
}

/// The scope behind an IPv6 address; none for scope zero.
pub open spec fn scope_text(scope_id: u32) -> Seq<char> {
    if scope_id == 0 {
        Seq::empty()
    } else {
        seq!['%'] + decimal(scope_id as nat)
    }
}

/// The text of an IP address and port.
pub open spec fn socket_text(a: SocketAddr) -> Seq<char> {
    match a.ip {
        IpAddr::V4(_) => ip_text(a.ip) + seq![':'] + decimal(a.port as nat),
        IpAddr::V6(_) => seq!['['] + ip_text(a.ip) + scope_text(a.scope_id) + seq![']', ':']
            + decimal(a.port as nat),
    }
}

/// Appends the text of an IP address and port.
pub fn push_socket(out: &mut String, a: SocketAddr)
    ensures
        final(out)@ == old(out)@ + socket_text(a),
{
    if !a.ip.is_ipv4() {
        out.push('[');
    }
    push_ip(out, a.ip);
    if !a.ip.is_ipv4() {
        if a.scope_id != 0 {
            out.push('%');
            push_decimal(out, a.scope_id as u64);
        }
        out.push(']');
    }
    out.push(':');
    push_decimal(out, a.port as u64);
    proof {
        assert(out@ =~= old(out)@ + socket_text(a));
    }
}

/// The text of a prefix.
pub open spec fn net_text(n: IpNet) -> Seq<char> {
    ip_text(n.spec_addr()) + seq!['/'] + decimal(n.spec_prefix_len() as nat)
}

/// Appends the text of a prefix.
pub fn push_net(out: &mut String, n: &IpNet)
    ensures
        final(out)@ == old(out)@ + net_text(*n),
{
    push_ip(out, n.addr());
    out.push('/');
    push_decimal(out, n.prefix_len() as u64);
    proof {
        assert(out@ =~= old(out)@ + net_text(*n));
    }
}

/// A character of Unicode's White_Space property.
pub open spec fn is_white(c: char) -> bool {
    ||| '\u{9}' <= c <= '\u{d}'
    ||| c == ' '
    ||| c == '\u{85}'
    ||| c == '\u{a0}'
    ||| c == '\u{1680}'
    ||| '\u{2000}' <= c <= '\u{200a}'
    ||| c == '\u{2028}'
    ||| c == '\u{2029}'
    ||| c == '\u{202f}'
    ||| c == '\u{205f}'
    ||| c == '\u{3000}'
}

pub fn white(c: char) -> (v: bool)
    ensures
        v == is_white(c),
{
    ('\u{9}' <= c && c <= '\u{d}') || c == ' ' || c == '\u{85}' || c == '\u{a0}' || c == '\u{1680}'
        || ('\u{2000}' <= c && c <= '\u{200a}') || c == '\u{2028}' || c == '\u{2029}' || c
        == '\u{202f}' || c == '\u{205f}' || c == '\u{3000}'
}

/// Where `c` first stands in `s`; the length of `s` if nowhere.
pub open spec fn find(s: Seq<char>, c: char) -> nat
    decreases s.len(),
{
    if s.len() == 0 {
        0
    } else {
        let f = find(s.drop_last(), c);
        if f + 1 < s.len() || s.last() == c {
            f
        } else {
            s.len()
        }
    }
}

/// What [`find`] finds is the first occurrence.
pub proof fn lemma_find(s: Seq<char>, c: char)
    ensures
        find(s, c) <= s.len(),
        forall|i: int| 0 <= i < find(s, c) ==> s[i] != c,
        find(s, c) < s.len() ==> s[find(s, c) as int] == c,
    decreases s.len(),
{
    if s.len() > 0 {
        lemma_find(s.drop_last(), c);
        assert forall|i: int| 0 <= i < find(s, c) implies s[i] != c by {
            if i < s.len() - 1 {
                assert(s.drop_last()[i] == s[i]);
            }
        }
    }
}

/// An occurrence with none before it is what [`find`] finds.
pub proof fn lemma_find_unique(s: Seq<char>, c: char, k: int)
    requires
        0 <= k <= s.len(),
        forall|i: int| 0 <= i < k ==> s[i] != c,
        k < s.len() ==> s[k] == c,
    ensures
        find(s, c) == k,
{
    lemma_find(s, c);
}

/// Where `c` first stands in `s`.
pub fn find_char(s: &[char], c: char) -> (k: usize)
    ensures
        k == find(s@, c),
        k <= s@.len(),
{
    let mut k: usize = 0;
    while k < s.len()
        invariant
            k <= s@.len(),
            forall|i: int| 0 <= i < k ==> s@[i] != c,
        decreases s@.len() - k,
    {
        if s[k] == c {
            proof {
                lemma_find_unique(s@, c, k as int);
            }
            return k;
        }
        k = k + 1;
    }
    proof {
        lemma_find_unique(s@, c, k as int);
    }
    k
}

/// `s` without the white space it starts with.
pub open spec fn trim_start(s: Seq<char>) -> Seq<char>
    decreases s.len(),
{
    if s.len() > 0 && is_white(s[0]) {
        trim_start(s.drop_first())
    } else {
        s
    }
}

/// `s` without the white space it ends with.
pub open spec fn trim_end(s: Seq<char>) -> Seq<char>
    decreases s.len(),
{
    if s.len() > 0 && is_white(s.last()) {
        trim_end(s.drop_last())
    } else {
        s
    }
}

/// `s` without the white space around it.
pub open spec fn trimmed(s: Seq<char>) -> Seq<char> {
    trim_end(trim_start(s))
}

/// `s` without the white space around it.
pub fn trim(s: &[char]) -> (t: Vec<char>)
    ensures
        t@ == trimmed(s@),
{
    let mut i: usize = 0;
    proof {
        assert(s@.skip(0) =~= s@);
    }
    while i < s.len() && white(s[i])
        invariant
            i <= s@.len(),
            trim_start(s@) == trim_start(s@.skip(i as int)),
        decreases s@.len() - i,
    {
        proof {
            assert(s@.skip(i as int).drop_first() =~= s@.skip(i + 1));
        }
        i = i + 1;
    }
    let ghost rest = s@.skip(i as int);
    proof {
        assert(trim_start(rest) == rest);
    }
    let mut j: usize = s.len();
    proof {
        assert(s@.subrange(i as int, j as int) =~= rest);
    }
    while i < j && white(s[j - 1])
        invariant
            i <= j <= s@.len(),
            trim_end(rest) == trim_end(s@.subrange(i as int, j as int)),
        decreases j,
    {
        proof {
            assert(s@.subrange(i as int, j as int).drop_last() =~= s@.subrange(
                i as int,
                j - 1,
            ));
        }
        j = j - 1;
    }
    sub_chars(s, i, j)
}

/// The characters from `i` up to `j`.
pub fn sub_chars(s: &[char], i: usize, j: usize) -> (t: Vec<char>)
    requires
        i <= j <= s@.len(),
    ensures
        t@ == s@.subrange(i as int, j as int),
{
    let mut t: Vec<char> = Vec::new();
    let mut k: usize = i;
    while k < j
        invariant
            i <= k <= j <= s@.len(),
            t@ == s@.subrange(i as int, k as int),
        decreases j - k,
    {
        t.push(s[k]);
        k = k + 1;
        proof {
            assert(s@.subrange(i as int, k as int) =~= s@.subrange(i as int, k - 1).push(
                s@[k - 1],
            ));
        }
    }
    t
}

/// An ASCII letter in lower case; any other character as it is.
pub open spec fn lower(c: char) -> char {
    if 'A' <= c <= 'Z' {
        (c as u32 + 32) as char
    } else {
        c
    }
}

fn lower_char(c: char) -> (l: char)
    ensures
        l == lower(c),
{
    if 'A' <= c && c <= 'Z' {
        (c as u8 + 32) as char
    } else {
        c
    }
}

/// All ASCII letters in lower case.
pub open spec fn lowered(s: Seq<char>) -> Seq<char> {
    s.map_values(|c: char| lower(c))
}

/// All ASCII letters in lower case.
pub fn to_lower(s: &[char]) -> (t: Vec<char>)
    ensures
        t@ == lowered(s@),
{
    let mut t: Vec<char> = Vec::new();
    let mut i: usize = 0;
    while i < s.len()
        invariant
            i <= s@.len(),
            t@ == lowered(s@.take(i as int)),
        decreases s@.len() - i,
    {
        t.push(lower_char(s[i]));
        i = i + 1;
        proof {
            assert(t@ =~= lowered(s@.take(i as int)));
        }
    }
    proof {
        assert(s@.take(s@.len() as int) =~= s@);
    }
    t
}

/// Whether two character sequences are the same.
pub fn same_chars(a: &[char], b: &[char]) -> (v: bool)
    ensures
        v == (a@ == b@),
{
    if a.len() != b.len() {
        return false;
    }
    let mut i: usize = 0;
    while i < a.len()
        invariant
            i <= a@.len(),
            a@.len() == b@.len(),
            forall|j: int| 0 <= j < i ==> a@[j] == b@[j],
        decreases a@.len() - i,
    {
        if a[i] != b[i] {
            return false;
        }
        i = i + 1;
    }
    proof {
        assert(a@ =~= b@);
    }
    true
}

/// Whether two strings are the same but for the case of ASCII letters.
pub fn same_ignoring_case(a: &[char], b: &[char]) -> (v: bool)
    ensures
        v == (lowered(a@) == lowered(b@)),
{
    let x = to_lower(a);
    let y = to_lower(b);
    same_chars(x.as_slice(), y.as_slice())
}

/// Whether a string is the given text.
pub fn is_text(a: &str, b: &str) -> (v: bool)
    ensures
        v == (a@ == b@),
{
    let x = chars_of(a);
    let y = chars_of(b);
    same_chars(x.as_slice(), y.as_slice())
}

/// A lowercase hexadecimal digit.
pub open spec fn hex_digit(n: nat) -> char {
    if n < 10 {
        (48 + n) as char
    } else {
        (87 + n) as char
    }
}

fn hex_char(n: u8) -> (c: char)
    requires
        n < 16,
    ensures
        c == hex_digit(n as nat),
{
    if n < 10 {
        (48 + n) as char
    } else {
        (87 + n) as char
    }
}

/// Bytes in lowercase hexadecimal, two digits each.
pub open spec fn hex_of(bytes: Seq<u8>) -> Seq<char>
    decreases bytes.len(),
{
    if bytes.len() == 0 {
        Seq::empty()
    } else {
        hex_of(bytes.drop_last()).push(hex_digit((bytes.last() / 16) as nat)).push(
            hex_digit((bytes.last() % 16) as nat),
        )
    }
}

/// Bytes in lowercase hexadecimal, two digits each.
pub fn hex(bytes: &[u8]) -> (s: String)
    ensures
        s@ == hex_of(bytes@),
{
    let mut s = String::new();
    let mut i: usize = 0;
    while i < bytes.len()
        invariant
            i <= bytes@.len(),
            s@ == hex_of(bytes@.take(i as int)),
        decreases bytes@.len() - i,
    {
        let b: u8 = bytes[i];
        s.push(hex_char(b / 16));
        s.push(hex_char(b % 16));
        i = i + 1;
        proof {
            assert(bytes@.take(i as int).drop_last() =~= bytes@.take(i - 1));
        }
    }
    proof {
        assert(bytes@.take(bytes@.len() as int) =~= bytes@);
    }
    s
}

/// Hexadecimal has two digits per byte.
pub proof fn lemma_hex_len(bytes: Seq<u8>)
    ensures
        hex_of(bytes).len() == 2 * bytes.len(),
    decreases bytes.len(),
{
    if bytes.len() > 0 {
        lemma_hex_len(bytes.drop_last());
    }
}

/// The bytes that a text is the base64 of, in the standard alphabet with
/// padding; none if it is no base64.
pub uninterp spec fn base64_standard(text: Seq<char>) -> Option<Seq<u8>>;

/// The view of optional bytes.
pub open spec fn bytes_view(v: Option<Vec<u8>>) -> Option<Seq<u8>> {
    match v {
        Some(v) => Some(v@),
        None => None,
    }
}

/// `base64`'s standard engine, decoding: the result depends on the text
/// alone.
#[verifier::external_body]
pub(crate) fn base64_decode(text: &str) -> (r: Option<Vec<u8>>)
    ensures
        bytes_view(r) == base64_standard(text@),
{
    base64::engine::general_purpose::STANDARD.decode(text).ok()
}

/// The base64 of some bytes, in the standard alphabet with padding.
pub uninterp spec fn base64_of(bytes: Seq<u8>) -> Seq<char>;

/// What decoding gives when it gives back some bytes.
pub open spec fn decodes_to(bytes: Seq<u8>) -> Option<Seq<u8>> {
    Some(bytes)
}

/// `base64`'s standard engine, encoding: the result depends on the bytes
/// alone, and decoding it gives them back.
#[verifier::external_body]
pub(crate) fn base64_encode(bytes: &[u8]) -> (s: String)
    ensures
        s@ == base64_of(bytes@),
        base64_standard(s@) == decodes_to(bytes@),
{
    base64::engine::general_purpose::STANDARD.encode(bytes)
}

/// `String::from_utf8`: the text that the bytes encode, if they are UTF-8.
#[verifier::external_body]
pub(crate) fn utf8_text(bytes: Vec<u8>) -> (r: Option<String>)
    ensures
        match r {
            Some(s) => valid_utf8(bytes@) && s@ == decode_utf8(bytes@),
            None => !valid_utf8(bytes@),
        },
{
    String::from_utf8(bytes).ok()
}

/// Two texts are the same exactly when their bytes are.
pub proof fn lemma_utf8_injective(a: Seq<char>, b: Seq<char>)
    ensures
        (encode_utf8(a) == encode_utf8(b)) == (a == b),
{
    vstd::utf8::encode_utf8_decode_utf8(a);
    vstd::utf8::encode_utf8_decode_utf8(b);
}

/// A text in quotes, escaped the way Rust writes a string literal.
pub uninterp spec fn quoted(text: Seq<char>) -> Seq<char>;

/// `Debug` of a string: the result depends on the text alone.
#[verifier::external_body]
pub(crate) fn quote(text: &str) -> (s: String)
    ensures
        s@ == quoted(text@),
{
    format!("{text:?}")
}

/// The texts of some strings.
pub open spec fn texts(v: Seq<String>) -> Seq<Seq<char>> {
    v.map_values(|s: String| s@)
}

/// The texts of some string slices.
pub open spec fn slices<'a>(v: Seq<&'a str>) -> Seq<Seq<char>> {
    v.map_values(|s: &'a str| s@)
}

/// Appends a text to a list.
pub fn push_text(list: &mut Vec<String>, s: &str)
    ensures
        texts(final(list)@) == texts(old(list)@).push(s@),
{
    list.push(String::from_str(s));
    proof {
        assert(texts(list@) =~= texts(old(list)@).push(s@));
    }
}

/// Appends a string to a list.
pub fn push_string(list: &mut Vec<String>, s: String)
    ensures
        texts(final(list)@) == texts(old(list)@).push(s@),
{
    list.push(s);
    proof {
        assert(texts(list@) =~= texts(old(list)@).push(s@));
    }
}

/// A copy of some strings.
pub fn copy_strings(v: &Vec<String>) -> (out: Vec<String>)
    ensures
        out@ == v@,
{
    let mut out: Vec<String> = Vec::new();
    let mut i: usize = 0;
    while i < v.len()
        invariant
            i <= v@.len(),
            out@ == v@.take(i as int),
        decreases v@.len() - i,
    {
        out.push(v[i].clone());
        i = i + 1;
        proof {
            assert(v@.take(i as int) =~= v@.take(i - 1).push(v@[i - 1]));
        }
    }
    proof {
        assert(v@.take(v@.len() as int) =~= v@);
    }
    out
}

/// The texts in order, each with a space before it.
pub open spec fn spaced(list: Seq<Seq<char>>) -> Seq<char>
    decreases list.len(),
{
    if list.len() == 0 {
        Seq::empty()
    } else {
        spaced(list.drop_last()) + seq![' '] + list.last()
    }
}

/// Appends the texts, each with a space before it.
pub fn push_spaced(out: &mut String, list: &Vec<String>)
    ensures
        final(out)@ == old(out)@ + spaced(texts(list@)),
{
    let mut i: usize = 0;
    proof {
        assert(texts(list@.take(0)) =~= Seq::<Seq<char>>::empty());
        assert(out@ =~= old(out)@ + spaced(texts(list@.take(0))));
    }
    while i < list.len()
        invariant
            i <= list@.len(),
            out@ == old(out)@ + spaced(texts(list@.take(i as int))),
        decreases list@.len() - i,
    {
        out.push(' ');
        out.append(list[i].as_str());
        i = i + 1;
        proof {
            let upto = texts(list@.take(i as int));
            assert(upto.drop_last() =~= texts(list@.take(i - 1)));
            assert(out@ =~= old(out)@ + spaced(upto));
        }
    }
    proof {
        assert(list@.take(list@.len() as int) =~= list@);
    }
}

/// The runs of characters between white space.
pub open spec fn words(s: Seq<char>) -> Seq<Seq<char>>
    decreases s.len(),
{
    if s.len() == 0 {
        Seq::empty()
    } else {
        let before = words(s.drop_last());
        let c = s.last();
        if is_white(c) {
            before
        } else if s.len() == 1 || is_white(s[s.len() - 2]) {
            before.push(seq![c])
        } else {
            before.drop_last().push(before.last().push(c))
        }
    }
}

/// The characters of some lists.
pub open spec fn char_lists(v: Seq<Vec<char>>) -> Seq<Seq<char>> {
    v.map_values(|w: Vec<char>| w@)
}

/// Split a text at white space.
pub fn split_words(s: &[char]) -> (v: Vec<Vec<char>>)
    ensures
        char_lists(v@) == words(s@),
{
    let mut v: Vec<Vec<char>> = Vec::new();
    let mut word: Vec<char> = Vec::new();
    let mut i: usize = 0;
    proof {
        assert(s@.take(0) =~= Seq::<char>::empty());
        assert(char_lists(v@) =~= words(s@.take(0)));
    }
    while i < s.len()
        invariant
            i <= s@.len(),
            i == 0 || is_white(s@[i - 1]) ==> word@.len() == 0 && char_lists(v@) == words(
                s@.take(i as int),
            ),
            i > 0 && !is_white(s@[i - 1]) ==> char_lists(v@).push(word@) == words(
                s@.take(i as int),
            ),
        decreases s@.len() - i,
    {
        let c = s[i];
        let ghost upto = s@.take(i + 1);
        proof {
            assert(upto.drop_last() =~= s@.take(i as int));
            assert(upto.last() == c);
            if i > 0 {
                assert(upto[upto.len() - 2] == s@[i - 1]);
            }
        }
        let ghost done = char_lists(v@);
        let ghost open = word@;
        if white(c) {
            if i > 0 && !white(s[i - 1]) {
                v.push(word);
                word = Vec::new();
                proof {
                    assert(char_lists(v@) =~= done.push(open));
                }
            }
        } else {
            word.push(c);
            proof {
                if i > 0 && !is_white(s@[i - 1]) {
                    let before = words(s@.take(i as int));
                    assert(before.drop_last() =~= done);
                    assert(before.last() == open);
                } else {
                    assert(word@ =~= seq![c]);
                }
            }
        }
        i = i + 1;
    }
    proof {
        assert(s@.take(s@.len() as int) =~= s@);
    }
    if s.len() > 0 && !white(s[s.len() - 1]) {
        let ghost done = char_lists(v@);
        let ghost open = word@;
        v.push(word);
        proof {
            assert(char_lists(v@) =~= done.push(open));
        }
    }
    v
}

/// The pieces of a text between occurrences of `c`.
pub open spec fn pieces(s: Seq<char>, c: char) -> Seq<Seq<char>>
    decreases s.len(),
{
    let k = find(s, c) as int;
    if k < s.len() {
        seq![s.take(k)] + pieces(s.skip(k + 1), c)
    } else {
        seq![s]
    }
}

/// Split a text at every `c`.
pub fn split_at(s: &[char], c: char) -> (v: Vec<Vec<char>>)
    ensures
        char_lists(v@) == pieces(s@, c),
{
    let mut v: Vec<Vec<char>> = Vec::new();
    let mut rest: Vec<char> = sub_chars(s, 0, s.len());
    proof {
        assert(rest@ =~= s@);
        assert(char_lists(v@) + pieces(rest@, c) =~= pieces(s@, c));
    }
    loop
        invariant
            char_lists(v@) + pieces(rest@, c) == pieces(s@, c),
        ensures
            char_lists(v@) + seq![rest@] == pieces(s@, c),
        decreases rest@.len(),
    {
        let k = find_char(rest.as_slice(), c);
        if k >= rest.len() {
            break ;
        }
        let piece = sub_chars(rest.as_slice(), 0, k);
        let after = sub_chars(rest.as_slice(), k + 1, rest.len());
        proof {
            assert(piece@ =~= rest@.take(k as int));
            assert(after@ =~= rest@.skip(k + 1));
        }
        let ghost done = char_lists(v@);
        v.push(piece);
        proof {
            assert(char_lists(v@) =~= done.push(piece@));
            assert(char_lists(v@) + pieces(after@, c) =~= done + (seq![piece@] + pieces(after@, c)));
        }
        rest = after;
    }
    let ghost done = char_lists(v@);
    let ghost last = rest@;
    v.push(rest);
    proof {
        assert(char_lists(v@) =~= done + seq![last]);
    }
    v
}

/// The address that a text spells, if it spells one.
pub uninterp spec fn ip_of_text(text: Seq<char>) -> Option<IpAddr>;

/// `FromStr` of an IP address: the result depends on the text alone.
#[verifier::external_body]
pub(crate) fn parse_ip(text: &str) -> (r: Option<IpAddr>)
    ensures
        r == ip_of_text(text@),
{
    match text.parse().ok().and_then(|a| ipnet::IpNet::new(a, 0).ok()) {
        Some(ipnet::IpNet::V4(n)) => Some(IpAddr::V4(Ipv4Addr { bits: n.addr().into() })),
        Some(ipnet::IpNet::V6(n)) => Some(IpAddr::V6(Ipv6Addr { bits: n.addr().into() })),
        None => None,
    }
}

/// The number that digits in decimal stand for.
pub open spec fn number(s: Seq<char>) -> int
    decreases s.len(),
{
    if s.len() == 0 {
        0
    } else {
        number(s.drop_last()) * 10 + (s.last() as int - '0' as int)
    }
}

/// The decimal text of a number is made of digits, stands for the number, and
/// starts with a zero for zero alone.
pub proof fn lemma_decimal(n: nat)
    ensures
        decimal(n).len() > 0,
        forall|i: int| 0 <= i < decimal(n).len() ==> '0' <= #[trigger] decimal(n)[i] <= '9',
        number(decimal(n)) == n,
        n > 0 ==> decimal(n)[0] != '0',
        n == 0 ==> decimal(n) == seq!['0'],
    decreases n,
{
    if n < 10 {
        reveal_with_fuel(number, 2);
        assert(decimal(n).drop_last() =~= Seq::<char>::empty());
    } else {
        let rest = decimal(n / 10);
        lemma_decimal(n / 10);
        assert(decimal(n).drop_last() =~= rest);
        assert(forall|i: int| 0 <= i < rest.len() ==> decimal(n)[i] == #[trigger] rest[i]);
        assert(decimal(n)[0] == rest[0]);
    }
}

/// Trimming takes only white space, and only at the ends: what is left stands
/// in the text, with nothing but white space around it and none at its ends.
pub proof fn lemma_trimmed(s: Seq<char>)
    ensures
        exists|i: int, j: int|
            {
                &&& 0 <= i <= j <= s.len()
                &&& trimmed(s) == #[trigger] s.subrange(i, j)
                &&& forall|k: int| 0 <= k < i || j <= k < s.len() ==> is_white(#[trigger] s[k])
            },
        trimmed(s).len() > 0 ==> !is_white(trimmed(s)[0]) && !is_white(trimmed(s).last()),
{
    lemma_trim_start(s);
    let t = trim_start(s);
    lemma_trim_end(t);
    let i = s.len() - t.len();
    let j = i + trim_end(t).len();
    assert(trim_end(t) =~= s.subrange(i, j));
    assert forall|k: int| 0 <= k < i || j <= k < s.len() implies is_white(#[trigger] s[k]) by {
        if j <= k {
            assert(t[k - i] == s[k]);
        }
    }
}

proof fn lemma_trim_start(s: Seq<char>)
    ensures
        trim_start(s).len() <= s.len(),
        trim_start(s) == s.skip(s.len() - trim_start(s).len()),
        forall|k: int| 0 <= k < s.len() - trim_start(s).len() ==> is_white(#[trigger] s[k]),
        trim_start(s).len() > 0 ==> !is_white(trim_start(s)[0]),
    decreases s.len(),
{
    if s.len() > 0 && is_white(s[0]) {
        let d = s.drop_first();
        lemma_trim_start(d);
        assert(trim_start(s) =~= s.skip(s.len() - trim_start(s).len()));
        assert forall|k: int| 0 <= k < s.len() - trim_start(s).len() implies is_white(
            #[trigger] s[k],
        ) by {
            if k > 0 {
                assert(d[k - 1] == s[k]);
            }
        }
    } else {
        assert(s =~= s.skip(0));
    }
}

proof fn lemma_trim_end(s: Seq<char>)
    ensures
        trim_end(s).len() <= s.len(),
        trim_end(s) == s.take(trim_end(s).len() as int),
        forall|k: int| trim_end(s).len() <= k < s.len() ==> is_white(#[trigger] s[k]),
        trim_end(s).len() > 0 ==> !is_white(trim_end(s).last()),
    decreases s.len(),
{
    if s.len() > 0 && is_white(s.last()) {
        let d = s.drop_last();
        lemma_trim_end(d);
        assert(trim_end(s) =~= s.take(trim_end(s).len() as int));
        assert forall|k: int| trim_end(s).len() <= k < s.len() implies is_white(#[trigger] s[k]) by {
            if k < s.len() - 1 {
                assert(d[k] == s[k]);
            }
        }
    } else {
        assert(s =~= s.take(s.len() as int));
    }
}

/// Lower case changes the letters A to Z and nothing else.
pub proof fn lemma_lowered(s: Seq<char>, i: int)
    requires
        0 <= i < s.len(),
    ensures
        lowered(s).len() == s.len(),
        'A' <= s[i] <= 'Z' ==> lowered(s)[i] as int == s[i] as int + ('a' as int - 'A' as int),
        !('A' <= s[i] <= 'Z') ==> lowered(s)[i] == s[i],
{
}

/// In hexadecimal a byte stands as its high half and its low half.
pub proof fn lemma_hex(bytes: Seq<u8>, i: int)
    requires
        0 <= i < bytes.len(),
    ensures
        ({
            let h = hex_of(bytes)[2 * i] as int;
            let l = hex_of(bytes)[2 * i + 1] as int;
            let high = if h <= '9' as int {
                h - '0' as int
            } else {
                h - 'a' as int + 10
            };
            let low = if l <= '9' as int {
                l - '0' as int
            } else {
                l - 'a' as int + 10
            };
            &&& hex_of(bytes).len() == 2 * bytes.len()
            &&& '0' as int <= h <= '9' as int || 'a' as int <= h <= 'f' as int
            &&& '0' as int <= l <= '9' as int || 'a' as int <= l <= 'f' as int
            &&& bytes[i] == 16 * high + low
        }),
    decreases bytes.len(),
{
    let d = bytes.drop_last();
    lemma_hex_len(bytes);
    lemma_hex_len(d);
    if i < bytes.len() - 1 {
        lemma_hex(d, i);
        assert(hex_of(bytes)[2 * i] == hex_of(d)[2 * i]);
        assert(hex_of(bytes)[2 * i + 1] == hex_of(d)[2 * i + 1]);
        assert(d[i] == bytes[i]);
    }
}

/// A text without white space is one word; white space between two texts
/// parts their words; and white space alone holds none.
pub proof fn lemma_words(a: Seq<char>, w: char, b: Seq<char>)
    requires
        is_white(w),
    ensures
        words(a + seq![w] + b) == words(a) + words(b),
        a.len() > 0 && (forall|i: int| 0 <= i < a.len() ==> !is_white(#[trigger] a[i])) ==> words(a)
            == seq![a],
        words(Seq::empty()) == Seq::<Seq<char>>::empty(),
{
    lemma_words_apart(a, w, b);
    if a.len() > 0 && (forall|i: int| 0 <= i < a.len() ==> !is_white(#[trigger] a[i])) {
        lemma_one_word(a);
    }
}

proof fn lemma_some_word(s: Seq<char>)
    requires
        s.len() > 0,
        !is_white(s.last()),
    ensures
        words(s).len() > 0,
{
}

proof fn lemma_one_word(a: Seq<char>)
    requires
        a.len() > 0,
        forall|i: int| 0 <= i < a.len() ==> !is_white(#[trigger] a[i]),
    ensures
        words(a) == seq![a],
    decreases a.len(),
{
    let d = a.drop_last();
    if d.len() > 0 {
        assert(forall|i: int| 0 <= i < d.len() ==> #[trigger] d[i] == a[i]);
        lemma_one_word(d);
        assert(!is_white(a[a.len() - 2]));
        assert(words(d).last() == d);
        assert(d.push(a.last()) =~= a);
        assert(words(a) =~= seq![a]);
    } else {
        assert(words(d) == Seq::<Seq<char>>::empty());
        assert(seq![a.last()] =~= a);
        assert(words(a) =~= seq![a]);
    }
}

proof fn lemma_words_apart(a: Seq<char>, w: char, b: Seq<char>)
    requires
        is_white(w),
    ensures
        words(a + seq![w] + b) == words(a) + words(b),
    decreases b.len(),
{
    let s = a + seq![w] + b;
    if b.len() == 0 {
        assert(s.drop_last() =~= a);
        assert(s.last() == w);
        assert(words(s) =~= words(a) + words(b));
    } else {
        let d = b.drop_last();
        let c = b.last();
        lemma_words_apart(a, w, d);
        assert(s.drop_last() =~= a + seq![w] + d);
        let before = words(s.drop_last());
        assert(s.last() == c);
        if !is_white(c) {
            if b.len() == 1 {
                assert(s[s.len() - 2] == w);
                assert(words(b) =~= words(d).push(seq![c]));
                assert(words(s) =~= words(a) + words(b));
            } else {
                assert(s[s.len() - 2] == b[b.len() - 2]);
                if is_white(b[b.len() - 2]) {
                    assert(words(s) =~= words(a) + words(b));
                } else {
                    assert(d.last() == b[b.len() - 2]);
                    lemma_some_word(d);
                    assert(before.last() == words(d).last());
                    assert(before.drop_last() =~= words(a) + words(d).drop_last());
                    assert(words(s) =~= words(a) + words(b));
                }
            }
        }
    }
}

/// A text without the separator is one piece; a separator after such a text
/// ends its piece, and the rest is split on its own.
pub proof fn lemma_pieces(a: Seq<char>, c: char, rest: Seq<char>)
    requires
        forall|i: int| 0 <= i < a.len() ==> a[i] != c,
    ensures
        pieces(a, c) == seq![a],
        pieces(a + seq![c] + rest, c) == seq![a] + pieces(rest, c),
{
    lemma_find_unique(a, c, a.len() as int);
    let s = a + seq![c] + rest;
    lemma_find_unique(s, c, a.len() as int);
    assert(s.take(a.len() as int) =~= a);
    assert(s.skip(a.len() + 1int) =~= rest);
}

/// The texts one after another, a space before each.
pub proof fn lemma_spaced(list: Seq<Seq<char>>, t: Seq<char>)
    ensures
        spaced(Seq::empty()) == Seq::<char>::empty(),
        spaced(list.push(t)) == spaced(list) + seq![' '] + t,
{
    assert(list.push(t).drop_last() =~= list);
}

/// An IPv4 address is written as its four octets in decimal with dots between,
/// the highest first.
pub proof fn lemma_dotted(a: u8, b: u8, c: u8, d: u8)
    ensures
        dotted((a * 0x100_0000 + b * 0x1_0000 + c * 256 + d) as u32) == decimal(a as nat) + seq!['.']
            + decimal(b as nat) + seq!['.'] + decimal(c as nat) + seq!['.'] + decimal(d as nat),
{
    let bits = (a * 0x100_0000 + b * 0x1_0000 + c * 256 + d) as u32;
    assert(bits / 0x100_0000 == a);
    assert(bits / 0x1_0000 % 256 == b);
    assert(bits / 256 % 256 == c);
    assert(bits % 256 == d);
}

/// A prefix is written as its address, a slash and its length; an address and
/// port with a colon between, and around an IPv6 address brackets, with its
/// scope inside them where it has one.
pub proof fn lemma_address_texts(n: IpNet, a: SocketAddr)
    ensures
        net_text(n) == ip_text(n.spec_addr()) + seq!['/'] + decimal(n.spec_prefix_len() as nat),
        a.ip is V4 ==> socket_text(a) == ip_text(a.ip) + seq![':'] + decimal(a.port as nat),
        a.ip is V6 && a.scope_id == 0 ==> socket_text(a) == seq!['['] + ip_text(a.ip) + seq![
            ']',
            ':',
        ] + decimal(a.port as nat),
        a.ip is V6 && a.scope_id != 0 ==> socket_text(a) == seq!['['] + ip_text(a.ip) + seq!['%']
            + decimal(a.scope_id as nat) + seq![']', ':'] + decimal(a.port as nat),
{
    if a.ip is V6 && a.scope_id == 0 {
        assert(socket_text(a) =~= seq!['['] + ip_text(a.ip) + seq![']', ':'] + decimal(
            a.port as nat,
        ));
    }
    if a.ip is V6 && a.scope_id != 0 {
        assert(socket_text(a) =~= seq!['['] + ip_text(a.ip) + seq!['%'] + decimal(a.scope_id as nat)
            + seq![']', ':'] + decimal(a.port as nat));
    }
}

} // verus!
