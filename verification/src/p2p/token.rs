//! Token v2: the capability a peer hands out so the holder can reach and
//! verify it through the relay.
//!
//! A CBOR map, base64url-encoded, prefixed `sc2_`. It carries everything a
//! dialer needs and nothing the relay can use to link accounts: where the
//! relay is and how to pin it (`relay`, `rpin`), a scoped short-TTL relay
//! credential (`auth`), the issuer's inner-TLS pin and relay-public address
//! (`ppin`, `paddr`), and an expiry (`exp`). `v` is checked first so peers of
//! different versions fail cleanly rather than confusingly.
//!
//! The CBOR itself is the caller's part; this module frames it, takes the
//! frame off again, and checks what came out.

use base64::Engine;
use vstd::prelude::*;

use crate::error::ProxyError;
use crate::text::{chars_of, decimal, push_decimal, quote, quoted, sub_chars, text_of};

use super::identity::{pin_from, SpkiPin};

pub use crate::codepoints::TOKEN_VERSION;

verus! {

/// A decoded rendezvous token.
#[derive(Clone, PartialEq, Eq)]
pub struct TokenV2 {
    /// Format version; MUST be [`TOKEN_VERSION`].
    pub v: u8,
    /// Relay endpoint, e.g. `h3://relay.example:443`.
    pub relay: String,
    /// Relay certificate SPKI SHA-256 (pins the relay; replaces WebPKI).
    pub rpin: Vec<u8>,
    /// Scoped, short-TTL relay bearer credential (bind mode only).
    pub auth: String,
    /// Issuing peer's inner-TLS SPKI SHA-256 (the peer pin).
    pub ppin: Vec<u8>,
    /// Issuer's relay-public addresses (one per family).
    pub paddr: Vec<String>,
    /// Expiry, unix seconds.
    pub exp: u64,
}

/// Bytes in base64url without padding.
pub uninterp spec fn base64url(bytes: Seq<u8>) -> Seq<char>;

/// The bytes that a base64url text without padding spells, or why it spells
/// none.
pub uninterp spec fn base64url_decoded(text: Seq<char>) -> Result<Seq<u8>, Seq<char>>;

/// The view of bytes, or of a reason.
pub open spec fn bytes_or_reason(r: Result<Vec<u8>, String>) -> Result<Seq<u8>, Seq<char>> {
    match r {
        Ok(b) => Ok(b@),
        Err(e) => Err(e@),
    }
}

/// What decoding gives when it gives back some bytes.
pub open spec fn gives_back(bytes: Seq<u8>) -> Result<Seq<u8>, Seq<char>> {
    Ok(bytes)
}

/// `base64`'s URL-safe engine without padding, encoding: the result depends
/// on the bytes alone, and decoding it gives them back.
#[verifier::external_body]
fn base64url_encode(bytes: &[u8]) -> (s: String)
    ensures
        s@ == base64url(bytes@),
        base64url_decoded(s@) == gives_back(bytes@),
{
    base64::engine::general_purpose::URL_SAFE_NO_PAD.encode(bytes)
}

/// `base64`'s URL-safe engine without padding, decoding: the result depends
/// on the text alone.
#[verifier::external_body]
fn base64url_decode(text: &str) -> (r: Result<Vec<u8>, String>)
    ensures
        bytes_or_reason(r) == base64url_decoded(text@),
{
    base64::engine::general_purpose::URL_SAFE_NO_PAD.decode(text).map_err(|e| e.to_string())
}

/// The text starts with the token prefix.
pub open spec fn has_prefix(text: Seq<char>) -> bool {
    text.len() >= 4 && text.take(4) == seq!['s', 'c', '2', '_']
}

/// Some texts, one behind the other with commas between them.
pub open spec fn listed(items: Seq<Seq<char>>) -> Seq<char>
    decreases items.len(),
{
    if items.len() == 0 {
        Seq::empty()
    } else if items.len() == 1 {
        items[0]
    } else {
        listed(items.drop_last()) + ", "@ + items.last()
    }
}

/// Bytes as a list of numbers.
pub open spec fn byte_list(bytes: Seq<u8>) -> Seq<char> {
    "["@ + listed(bytes.map_values(|b: u8| decimal(b as nat))) + "]"@
}

/// Texts as a list of quoted ones.
pub open spec fn text_list(v: Seq<String>) -> Seq<char> {
    "["@ + listed(v.map_values(|s: String| quoted(s@))) + "]"@
}

/// How a token is shown: without its credential.
pub open spec fn shown(
    v: u8,
    relay: Seq<char>,
    rpin: Seq<u8>,
    ppin: Seq<u8>,
    paddr: Seq<String>,
    exp: u64,
) -> Seq<char> {
    "TokenV2 { v: "@ + decimal(v as nat) + ", relay: "@ + quoted(relay) + ", rpin: "@ + byte_list(
        rpin,
    ) + ", auth: \"<redacted>\", ppin: "@ + byte_list(ppin) + ", paddr: "@ + text_list(paddr)
        + ", exp: "@ + decimal(exp as nat) + " }"@
}

fn push_byte_list(out: &mut String, bytes: &[u8])
    ensures
        final(out)@ == old(out)@ + byte_list(bytes@),
{
    out.append("[");
    let ghost start = out@;
    let ghost items = bytes@.map_values(|b: u8| decimal(b as nat));
    let mut i: usize = 0;
    proof {
        assert(items.take(0) =~= Seq::<Seq<char>>::empty());
        assert(start + listed(items.take(0)) =~= start);
    }
    while i < bytes.len()
        invariant
            i <= bytes@.len(),
            items == bytes@.map_values(|b: u8| decimal(b as nat)),
            out@ == start + listed(items.take(i as int)),
        decreases bytes@.len() - i,
    {
        if i > 0 {
            out.append(", ");
        }
        push_decimal(out, bytes[i] as u64);
        proof {
            let t = items.take(i + 1);
            assert(t.drop_last() =~= items.take(i as int));
            assert(t.last() == decimal(bytes@[i as int] as nat));
            assert(out@ =~= start + listed(t));
        }
        i = i + 1;
    }
    out.append("]");
    proof {
        assert(items.take(i as int) =~= items);
        assert(out@ =~= old(out)@ + byte_list(bytes@));
    }
}

fn push_text_list(out: &mut String, v: &Vec<String>)
    ensures
        final(out)@ == old(out)@ + text_list(v@),
{
    out.append("[");
    let ghost start = out@;
    let ghost items = v@.map_values(|s: String| quoted(s@));
    let mut i: usize = 0;
    proof {
        assert(items.take(0) =~= Seq::<Seq<char>>::empty());
        assert(start + listed(items.take(0)) =~= start);
    }
    while i < v.len()
        invariant
            i <= v@.len(),
            items == v@.map_values(|s: String| quoted(s@)),
            out@ == start + listed(items.take(i as int)),
        decreases v@.len() - i,
    {
        if i > 0 {
            out.append(", ");
        }
        out.append(quote(v[i].as_str()).as_str());
        proof {
            let t = items.take(i + 1);
            assert(t.drop_last() =~= items.take(i as int));
            assert(t.last() == quoted(v@[i as int]@));
            assert(out@ =~= start + listed(t));
        }
        i = i + 1;
    }
    out.append("]");
    proof {
        assert(items.take(i as int) =~= items);
        assert(out@ =~= old(out)@ + text_list(v@));
    }
}

/// What is wrong with a decoded token.
pub open spec fn token_fault(t: TokenV2) -> Option<Seq<char>> {
    if t.v != TOKEN_VERSION {
        Some(
            "unsupported token version "@ + decimal(t.v as nat) + " (this build speaks v"@
                + decimal(TOKEN_VERSION as nat) + ")"@,
        )
    } else if t.rpin@.len() != 32 || t.ppin@.len() != 32 {
        Some("token pins must be 32-byte SHA-256 digests"@)
    } else {
        None
    }
}

/// What a text that frames CBOR holds, or what is wrong with it.
pub open spec fn framed_cbor(text: Seq<char>) -> Result<Seq<u8>, Seq<char>> {
    if !has_prefix(text) {
        Err("token must start with sc2_"@)
    } else {
        match base64url_decoded(text.skip(4)) {
            Ok(b) => Ok(b),
            Err(why) => Err("token is not valid base64url: "@ + why),
        }
    }
}

impl TokenV2 {
    /// A token that passes every check.
    pub open spec fn wf(self) -> bool {
        token_fault(self) is None
    }

    /// Mint a token advertising `paddr` and `identity_pin`, valid for `ttl`
    /// seconds from `now`. `relay`, `rpin` and `auth` let the holder reach and
    /// pin the relay.
    pub fn issue(
        relay: String,
        rpin: SpkiPin,
        auth: String,
        identity_pin: SpkiPin,
        paddr: Vec<String>,
        now_unix_secs: u64,
        ttl_secs: u64,
    ) -> (t: Self)
        requires
            now_unix_secs + ttl_secs <= u64::MAX,
        ensures
            t.wf(),
            t.v == TOKEN_VERSION,
            t.relay == relay,
            t.rpin@ == rpin@,
            t.auth == auth,
            t.ppin@ == identity_pin@,
            t.paddr == paddr,
            t.exp == now_unix_secs + ttl_secs,
    {
        let mut r: Vec<u8> = Vec::new();
        r.extend_from_slice(rpin.as_slice());
        let mut p: Vec<u8> = Vec::new();
        p.extend_from_slice(identity_pin.as_slice());
        proof {
            assert(r@ =~= rpin@);
            assert(p@ =~= identity_pin@);
        }
        TokenV2 {
            v: TOKEN_VERSION,
            relay,
            rpin: r,
            auth,
            ppin: p,
            paddr,
            exp: now_unix_secs + ttl_secs,
        }
    }

    /// Frame a token's CBOR in the `sc2_<base64url(CBOR)>` textual form.
    pub fn encode(cbor: &[u8]) -> (s: String)
        ensures
            s@ == seq!['s', 'c', '2', '_'] + base64url(cbor@),
            framed_cbor(s@) == gives_back(cbor@),
    {
        let b = base64url_encode(cbor);
        let mut s = String::new();
        s.push('s');
        s.push('c');
        s.push('2');
        s.push('_');
        s.append(b.as_str());
        proof {
            assert(s@ =~= seq!['s', 'c', '2', '_'] + base64url(cbor@));
            assert(s@.take(4) =~= seq!['s', 'c', '2', '_']);
            assert(s@.skip(4) =~= b@);
        }
        s
    }

    /// Take the frame off a textual token: its CBOR.
    pub fn unframe(text: &str) -> (r: Result<Vec<u8>, ProxyError>)
        ensures
            match framed_cbor(text@) {
                Ok(b) => r matches Ok(v) && v@ == b,
                Err(why) => r matches Err(ProxyError::InvalidRequest(t)) && t@ == why,
            },
    {
        let chars = chars_of(text);
        if chars.len() < 4 || chars[0] != 's' || chars[1] != 'c' || chars[2] != '2' || chars[3]
            != '_' {
            proof {
                if chars@.len() >= 4 {
                    assert(text@.take(4)[0] == chars@[0]);
                    assert(text@.take(4)[1] == chars@[1]);
                    assert(text@.take(4)[2] == chars@[2]);
                    assert(text@.take(4)[3] == chars@[3]);
                }
            }
            return Err(
                ProxyError::InvalidRequest(String::from_str("token must start with sc2_")),
            );
        }
        proof {
            assert(text@.take(4) =~= seq!['s', 'c', '2', '_']);
        }
        let rest = sub_chars(chars.as_slice(), 4, chars.len());
        proof {
            assert(rest@ =~= text@.skip(4));
        }
        let b64 = text_of(rest.as_slice());
        match base64url_decode(b64.as_str()) {
            Ok(b) => Ok(b),
            Err(e) => Err(
                ProxyError::InvalidRequest(
                    String::from_str("token is not valid base64url: ").concat(e.as_str()),
                ),
            ),
        }
    }

    /// Validate a token that came out of CBOR. Does **not** check expiry —
    /// call [`is_expired`](Self::is_expired) with the current time for that,
    /// so a caller can decode-then-report rather than conflate the two
    /// failures.
    pub fn decode(token: TokenV2) -> (r: Result<Self, ProxyError>)
        ensures
            match token_fault(token) {
                None => r matches Ok(t) && t == token,
                Some(why) => r matches Err(ProxyError::InvalidRequest(t)) && t@ == why,
            },
    {
        if token.v != TOKEN_VERSION {
            let mut t = String::from_str("unsupported token version ");
            push_decimal(&mut t, token.v as u64);
            t.append(" (this build speaks v");
            push_decimal(&mut t, TOKEN_VERSION as u64);
            t.append(")");
            return Err(ProxyError::InvalidRequest(t));
        }
        if token.rpin.len() != 32 || token.ppin.len() != 32 {
            return Err(
                ProxyError::InvalidRequest(
                    String::from_str("token pins must be 32-byte SHA-256 digests"),
                ),
            );
        }
        Ok(token)
    }

    /// The token for a log. The relay credential cannot reach one: `auth` is
    /// a bearer token, and what is shown does not depend on it.
    pub fn to_debug(&self) -> (s: String)
        ensures
            s@ == shown(self.v, self.relay@, self.rpin@, self.ppin@, self.paddr@, self.exp),
    {
        let mut s = String::from_str("TokenV2 { v: ");
        push_decimal(&mut s, self.v as u64);
        s.append(", relay: ");
        s.append(quote(self.relay.as_str()).as_str());
        s.append(", rpin: ");
        push_byte_list(&mut s, self.rpin.as_slice());
        s.append(", auth: \"<redacted>\", ppin: ");
        push_byte_list(&mut s, self.ppin.as_slice());
        s.append(", paddr: ");
        push_text_list(&mut s, &self.paddr);
        s.append(", exp: ");
        push_decimal(&mut s, self.exp);
        s.append(" }");
        s
    }

    /// Whether the token has expired at `now_unix_secs`.
    pub fn is_expired(&self, now_unix_secs: u64) -> (v: bool)
        ensures
            v == (now_unix_secs >= self.exp),
    {
        now_unix_secs >= self.exp
    }

    /// The issuer's peer pin as a fixed array (length checked on decode).
    pub fn peer_pin(&self) -> (p: SpkiPin)
        requires
            self.ppin@.len() == 32,
        ensures
            p@ == self.ppin@,
    {
        pin_from(self.ppin.as_slice())
    }

    /// The relay's pin as a fixed array (length checked on decode).
    pub fn relay_pin(&self) -> (p: SpkiPin)
        requires
            self.rpin@.len() == 32,
        ensures
            p@ == self.rpin@,
    {
        pin_from(self.rpin.as_slice())
    }
}

/// A token is accepted exactly if it is of version 2 and both its pins are 32
/// bytes long.
pub proof fn lemma_token_accepted(t: TokenV2)
    ensures
        token_fault(t) is None <==> t.v == 2 && t.rpin@.len() == 32 && t.ppin@.len() == 32,
{
}

/// What a token's text holds is what stands behind `sc2_`, in base64url; a text
/// that starts otherwise is no token.
pub proof fn lemma_token_text(text: Seq<char>, rest: Seq<char>)
    ensures
        framed_cbor(seq!['s', 'c', '2', '_'] + rest) is Ok <==> base64url_decoded(rest) is Ok,
        framed_cbor(seq!['s', 'c', '2', '_'] + rest) matches Ok(b) ==> base64url_decoded(rest)
            == Ok::<Seq<u8>, Seq<char>>(b),
        !seq!['s', 'c', '2', '_'].is_prefix_of(text) ==> framed_cbor(text) is Err,
{
    let t = seq!['s', 'c', '2', '_'] + rest;
    assert(t.take(4) =~= seq!['s', 'c', '2', '_']);
    assert(t.skip(4) =~= rest);
}

} // verus!
