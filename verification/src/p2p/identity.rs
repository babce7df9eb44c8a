//! A peer's inner-connection TLS identity and its SPKI pin.
//!
//! The identity is an Ed25519 keypair. Its pin — the SHA-256 of the
//! X.509 SubjectPublicKeyInfo — is the stable, WireGuard-pubkey-equivalent
//! name for the peer: a token carries the issuer's pin (`ppin`), and each
//! side verifies the other's SPKI against the expected pin on the inner
//! mTLS handshake. No CA, no hostname.
//!
//! Ephemeral by default (a fresh keypair per process); [`Identity::to_pem`]
//! / [`Identity::from_pem`] persist one so `ppin` is stable across restarts.

use rcgen::PublicKeyData;
use vstd::prelude::*;
use zeroize::Zeroize;

use crate::crypto::{sha256, sha256_of};
use crate::error::ProxyError;
use crate::session::auth::constant_time_eq;

verus! {

/// SHA-256 of a SubjectPublicKeyInfo: the pin that names a peer.
pub type SpkiPin = [u8; 32];

/// The key pair that a PEM private key spells — the private key (PKCS#8 DER)
/// and its public half (SPKI DER) — or why it spells none.
pub uninterp spec fn key_of_pem(pem: Seq<char>) -> Result<(Seq<u8>, Seq<u8>), Seq<char>>;

/// What loading a PEM comes to: a PEM that spells the same key, with the
/// public half of it, or the reason.
pub open spec fn spells(
    r: Result<(String, Vec<u8>), String>,
    key: Result<(Seq<u8>, Seq<u8>), Seq<char>>,
) -> bool {
    match key {
        Ok((private, public)) => r matches Ok(k) && k.1@ == public && key_of_pem(k.0@) == key,
        Err(why) => r matches Err(e) && e@ == why,
    }
}

/// `rcgen::KeyPair::from_pem`, with the PEM and the SubjectPublicKeyInfo that
/// the key pair serializes to: the key depends on the text alone. The PEM
/// carries the very DER that was read, so reading it again gives the same key;
/// of its line breaks nothing is said. The key pair's copy of the DER is wiped
/// (`Zeroize`), of which nothing is said either.
#[verifier::external_body]
fn load_key(pem: &str) -> (r: Result<(String, Vec<u8>), String>)
    ensures
        spells(r, key_of_pem(pem@)),
{
    let mut key = rcgen::KeyPair::from_pem(pem).map_err(|e| e.to_string())?;
    let loaded = (key.serialize_pem(), key.subject_public_key_info());
    key.zeroize();
    Ok(loaded)
}

/// A generated PEM spells a key.
pub open spec fn usable(pem: Result<Seq<char>, Seq<char>>) -> bool {
    pem matches Ok(text) ==> key_of_pem(text) is Ok
}

/// `rcgen::KeyPair::generate_for` Ed25519: the PEM of a random key pair, which
/// can be read back. Which key it is, and whether there is one, depends on the
/// system's randomness. The key pair's copy of the DER is wiped (`Zeroize`).
#[verifier::external_body]
fn generate_key() -> (r: Result<String, String>)
    ensures
        usable(pem_view(r)),
{
    let mut key = rcgen::KeyPair::generate_for(&rcgen::PKCS_ED25519).map_err(|e| e.to_string())?;
    let pem = key.serialize_pem();
    key.zeroize();
    Ok(pem)
}

/// `Zeroize` of a string: its memory is overwritten, and it is empty after.
#[verifier::external_body]
fn wipe_text(s: &mut String)
    ensures
        final(s)@.len() == 0,
    opens_invariants none
    no_unwind
{
    s.zeroize();
}

/// A text that holds key material. Its memory is wiped when it is dropped.
pub struct SecretText {
    text: String,
}

impl SecretText {
    pub closed spec fn spec_text(self) -> Seq<char> {
        self.text@
    }

    /// The text takes charge of `text`.
    pub fn new(text: String) -> (s: Self)
        ensures
            s.spec_text() == text@,
    {
        SecretText { text }
    }

    pub fn as_str(&self) -> (s: &str)
        ensures
            s@ == self.spec_text(),
    {
        self.text.as_str()
    }

    /// Wipe the key material.
    pub fn wipe(&mut self)
        ensures
            final(self).spec_text().len() == 0,
        opens_invariants none
        no_unwind
    {
        wipe_text(&mut self.text);
    }
}

impl Drop for SecretText {
    /// Wipe the key material.
    fn drop(&mut self)
        opens_invariants none
        no_unwind
    {
        self.wipe();
    }
}

/// A peer's inner-TLS keypair. The private key is wiped when it is dropped.
pub struct Identity {
    pem: SecretText,
    spki: Vec<u8>,
}

/// What the PEM of an identity gives.
pub open spec fn loaded(
    key: Result<(Seq<u8>, Seq<u8>), Seq<char>>,
    r: Result<Identity, ProxyError>,
) -> bool {
    match key {
        Ok((private, public)) => r matches Ok(id) && id.wf() && id.private_der() == private
            && id.public_der() == public,
        Err(why) => r matches Err(ProxyError::Tls(t)) && t@ == "invalid identity: "@ + why,
    }
}

/// What a generated PEM, or the failure to generate one, gives.
pub open spec fn generated(pem: Result<Seq<char>, Seq<char>>, r: Result<Identity, ProxyError>) -> bool {
    match pem {
        Ok(pem) => loaded(key_of_pem(pem), r),
        Err(why) => r matches Err(ProxyError::Tls(t)) && t@ == "identity keygen failed: "@ + why,
    }
}

/// The view of a PEM, or of a reason.
pub open spec fn pem_view(r: Result<String, String>) -> Result<Seq<char>, Seq<char>> {
    match r {
        Ok(pem) => Ok(pem@),
        Err(e) => Err(e@),
    }
}

impl Identity {
    /// The private key as PKCS#8 PEM.
    pub closed spec fn private_pem(self) -> Seq<char> {
        self.pem.spec_text()
    }

    /// The private key, as PKCS#8 DER.
    pub open spec fn private_der(self) -> Seq<u8> {
        key_of_pem(self.private_pem())->Ok_0.0
    }

    /// The public half, as SubjectPublicKeyInfo DER.
    pub closed spec fn public_der(self) -> Seq<u8> {
        self.spki@
    }

    /// The public half belongs to the private one.
    pub open spec fn wf(self) -> bool {
        key_of_pem(self.private_pem()) == Ok::<(Seq<u8>, Seq<u8>), Seq<char>>(
            (self.private_der(), self.public_der()),
        )
    }

    /// A fresh ephemeral Ed25519 identity.
    pub fn generate() -> (r: Result<Self, ProxyError>)
        ensures
            exists|pem: Result<Seq<char>, Seq<char>>| usable(pem) && #[trigger] generated(pem, r),
            r matches Ok(id) ==> id.wf(),
            r matches Err(e) ==> e matches ProxyError::Tls(t)
                && "identity keygen failed: "@.is_prefix_of(t@),
    {
        let pem = generate_key();
        let ghost drawn = pem_view(pem);
        let r = Identity::from_generated(pem);
        proof {
            assert(usable(drawn) && generated(drawn, r));
        }
        r
    }

    /// The identity that a generated PEM spells, or the error that stands for
    /// the failure to generate one.
    pub fn from_generated(pem: Result<String, String>) -> (r: Result<Self, ProxyError>)
        ensures
            generated(pem_view(pem), r),
    {
        match pem {
            Ok(pem) => {
                let pem = SecretText::new(pem);
                Identity::from_pem(pem.as_str())
            },
            Err(e) => Err(
                ProxyError::Tls(String::from_str("identity keygen failed: ").concat(e.as_str())),
            ),
        }
    }

    /// Load a persisted identity from a PKCS#8 PEM private key.
    pub fn from_pem(pem: &str) -> (r: Result<Self, ProxyError>)
        ensures
            loaded(key_of_pem(pem@), r),
    {
        match load_key(pem) {
            Ok((pem, spki)) => Ok(Identity { pem: SecretText::new(pem), spki }),
            Err(e) => Err(
                ProxyError::Tls(String::from_str("invalid identity: ").concat(e.as_str())),
            ),
        }
    }

    /// The private key as PKCS#8 PEM, for persistence. It is wiped when the
    /// caller drops it.
    pub fn to_pem(&self) -> (s: SecretText)
        ensures
            s.spec_text() == self.private_pem(),
    {
        SecretText::new(String::from_str(self.pem.as_str()))
    }

    /// The X.509 SubjectPublicKeyInfo DER — the public half, as pinned and
    /// as presented in an RFC 7250 raw-public-key handshake.
    pub fn spki_der(&self) -> (v: Vec<u8>)
        ensures
            v@ == self.public_der(),
    {
        let mut v: Vec<u8> = Vec::new();
        v.extend_from_slice(self.spki.as_slice());
        proof {
            assert(v@ =~= self.spki@);
        }
        v
    }

    /// This identity's pin: SHA-256 of [`spki_der`](Self::spki_der).
    pub fn pin(&self) -> (p: SpkiPin)
        ensures
            p@ == sha256_of(self.public_der()),
    {
        pin_of_spki(self.spki.as_slice())
    }
}

/// The first 32 bytes as an array.
pub fn pin_from(b: &[u8]) -> (p: SpkiPin)
    requires
        b@.len() == 32,
    ensures
        p@ == b@,
{
    let p: [u8; 32] = [
        b[0],
        b[1],
        b[2],
        b[3],
        b[4],
        b[5],
        b[6],
        b[7],
        b[8],
        b[9],
        b[10],
        b[11],
        b[12],
        b[13],
        b[14],
        b[15],
        b[16],
        b[17],
        b[18],
        b[19],
        b[20],
        b[21],
        b[22],
        b[23],
        b[24],
        b[25],
        b[26],
        b[27],
        b[28],
        b[29],
        b[30],
        b[31],
    ];
    proof {
        assert(p@ =~= b@);
    }
    p
}

/// The pin of an SPKI DER blob: SHA-256, as a fixed 32-byte array. The same
/// computation applied to a peer's presented SPKI, to compare against an
/// expected pin.
pub fn pin_of_spki(spki_der: &[u8]) -> (p: SpkiPin)
    ensures
        p@ == sha256_of(spki_der@),
{
    let digest = sha256(spki_der);
    pin_from(digest.as_slice())
}

/// Compare two pins in constant time — the peer's presented pin against the
/// expected one from the token. Length is fixed, so this only guards the byte
/// comparison.
pub fn pins_match(a: &SpkiPin, b: &SpkiPin) -> (v: bool)
    ensures
        v == (a@ == b@),
{
    constant_time_eq(a.as_slice(), b.as_slice())
}

/// The pin survives persistence: an identity that is written out and loaded
/// again has the same key, hence the same pin.
pub proof fn lemma_pin_survives_persistence(id: Identity, restored: Result<Identity, ProxyError>)
    requires
        id.wf(),
        loaded(key_of_pem(id.private_pem()), restored),
    ensures
        restored is Ok,
        restored->Ok_0.private_der() == id.private_der(),
        sha256_of(restored->Ok_0.public_der()) == sha256_of(id.public_der()),
{
}

} // verus!
