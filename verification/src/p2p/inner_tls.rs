//! RFC 7250 raw-public-key mTLS for the inner peer-to-peer connection.
//!
//! Both peers present their identity's public key as a bare
//! SubjectPublicKeyInfo — no X.509 certificate, no CA, no hostname — and
//! each verifies the other's SPKI against an expected pin (SHA-256 of the
//! SPKI). The pin is the WireGuard-pubkey-equivalent name for the peer: a
//! dialer knows the issuer's pin from the token (`ppin`); the issuer either
//! pins the holder out of band or accepts it on first use (TOFU) and records
//! it. Mutual: the connection authenticates both directions.

use vstd::prelude::*;

use crate::crypto::sha256_of;

use super::identity::{pin_of_spki, pins_match, SpkiPin};
use super::punch::pin_view;

pub use crate::codepoints::ALPN_STRAWCAT;

verus! {

/// Verifies a peer's presented raw public key against a pin: a fixed
/// `expected` pin (from a token, or a pre-shared holder pin), or, when
/// `None`, trust-on-first-use — accept and record the pin so the caller can
/// read it afterward.
#[derive(Debug)]
pub struct PinVerifier {
    expected: Option<SpkiPin>,
    learned: Option<SpkiPin>,
}

impl PinVerifier {
    /// The pin that the peer must present.
    pub closed spec fn wanted(self) -> Option<Seq<u8>> {
        pin_view(self.expected)
    }

    /// The pin that the peer presented last, of those that were accepted.
    pub closed spec fn seen(self) -> Option<Seq<u8>> {
        pin_view(self.learned)
    }

    pub fn new(expected: Option<SpkiPin>) -> (v: Self)
        ensures
            v.wanted() == pin_view(expected),
            v.seen() is None,
    {
        PinVerifier { expected, learned: None }
    }

    /// The pin actually presented by the peer (recorded on a successful
    /// handshake) — the value a TOFU caller pins for next time.
    pub fn learned_pin(&self) -> (p: Option<SpkiPin>)
        ensures
            pin_view(p) == self.seen(),
    {
        self.learned
    }

    /// What a key with this pin is answered, and whether it is remembered.
    pub open spec fn judges(
        self,
        pin: Seq<u8>,
        after: Self,
        r: Result<(), &'static str>,
    ) -> bool {
        if self.wanted() is None || self.wanted() == Some(pin) {
            r is Ok && after.seen() == Some(pin)
        } else {
            (r matches Err(e) && e@ == "peer public-key pin does not match the expected pin"@)
                && after.seen() == self.seen()
        }
    }

    /// The pin check shared by both directions: `end_entity` is the peer's
    /// SPKI (RPK mode). Enforce the expected pin, or learn it on first use.
    pub fn check_pin(&mut self, end_entity: &[u8]) -> (r: Result<(), &'static str>)
        ensures
            final(self).wanted() == old(self).wanted(),
            old(self).judges(sha256_of(end_entity@), *final(self), r),
    {
        let pin = pin_of_spki(end_entity);
        if let Some(expected) = &self.expected {
            if !pins_match(&pin, expected) {
                return Err("peer public-key pin does not match the expected pin");
            }
        }
        self.learned = Some(pin);
        Ok(())
    }
}

/// A peer is let in exactly if no pin is expected or its key has the pin that
/// is; the pin of a key that is let in is remembered, and of another it is not.
pub proof fn lemma_pinned(v: PinVerifier, pin: Seq<u8>, after: PinVerifier, r: Result<(), &'static str>)
    requires
        v.judges(pin, after, r),
    ensures
        r is Ok <==> (v.wanted() matches Some(w) ==> w == pin),
        r is Ok ==> after.seen() == Some(pin),
        r is Err ==> after.seen() == v.seen(),
{
}

} // verus!
