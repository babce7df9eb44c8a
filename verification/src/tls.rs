//! Certificates and private keys as bytes: what a PEM file holds, and a
//! self-signed certificate for development.

use rustls::pki_types::pem::PemObject;
use rustls::pki_types::{CertificateDer, PrivateKeyDer};
use vstd::prelude::*;
use vstd::utf8::{encode_utf8, is_ascii_chars};

use crate::error::ProxyError;
use crate::text::{ip_of_text, push_text, slices, texts};

verus! {

/// ALPN protocol identifier for HTTP/3 ("h3").
pub const ALPN_H3: [u8; 2] = [0x68, 0x33];

/// How the bytes of a private key are laid out.
#[derive(Debug, Clone, Copy, PartialEq, Eq, Structural)]
pub enum KeyKind {
    /// PKCS#1 (RSA).
    Pkcs1,
    /// SEC1 (elliptic curve).
    Sec1,
    /// PKCS#8.
    Pkcs8,
    /// A layout that is none of these.
    Other,
}

/// A private key.
#[derive(Debug)]
pub struct PrivateKey {
    pub kind: KeyKind,
    pub der: Vec<u8>,
}

/// Byte strings as plain values.
pub open spec fn ders(v: Seq<Vec<u8>>) -> Seq<Seq<u8>> {
    v.map_values(|d: Vec<u8>| d@)
}

/// Every certificate of a PEM text in order, or what is wrong with the first
/// section that is malformed.
pub uninterp spec fn pem_certificates(pem: Seq<u8>) -> Result<Seq<Seq<u8>>, Seq<char>>;

/// The first certificate of a PEM text, or what is wrong with a malformed
/// section before it; nothing if there is neither.
pub uninterp spec fn pem_first_certificate(pem: Seq<u8>) -> Option<Result<Seq<u8>, Seq<char>>>;

/// The first private key of a PEM text, or why there is none.
pub uninterp spec fn pem_private_key(pem: Seq<u8>) -> Result<(KeyKind, Seq<u8>), Seq<char>>;

/// The view of some certificates, or of a reason.
pub open spec fn certs_view(r: Result<Vec<Vec<u8>>, String>) -> Result<Seq<Seq<u8>>, Seq<char>> {
    match r {
        Ok(v) => Ok(ders(v@)),
        Err(e) => Err(e@),
    }
}

/// The view of one certificate, of a reason, or of nothing.
pub open spec fn first_view(r: Option<Result<Vec<u8>, String>>) -> Option<
    Result<Seq<u8>, Seq<char>>,
> {
    match r {
        Some(Ok(der)) => Some(Ok(der@)),
        Some(Err(e)) => Some(Err(e@)),
        None => None,
    }
}

/// The view of a private key, or of a reason.
pub open spec fn private_view(r: Result<PrivateKey, String>) -> Result<
    (KeyKind, Seq<u8>),
    Seq<char>,
> {
    match r {
        Ok(k) => Ok((k.kind, k.der@)),
        Err(e) => Err(e@),
    }
}

/// `CertificateDer::pem_slice_iter`, collected: every certificate section in
/// order, or the first error. The result depends on the text alone.
#[verifier::external_body]
fn read_certificates(pem: &[u8]) -> (r: Result<Vec<Vec<u8>>, String>)
    ensures
        certs_view(r) == pem_certificates(pem@),
{
    CertificateDer::pem_slice_iter(pem)
        .map(|c| c.map(|der| der.as_ref().to_vec()).map_err(|e| e.to_string()))
        .collect()
}

/// `SliceIter::next` of `CertificateDer::pem_slice_iter`: the first certificate
/// section, or an error met before it. What follows is not looked at. The
/// result depends on the text alone.
#[verifier::external_body]
fn read_first_certificate(pem: &[u8]) -> (r: Option<Result<Vec<u8>, String>>)
    ensures
        first_view(r) == pem_first_certificate(pem@),
{
    CertificateDer::pem_slice_iter(pem)
        .next()
        .map(|c| c.map(|der| der.as_ref().to_vec()).map_err(|e| e.to_string()))
}

/// `PrivateKeyDer::from_pem_slice`: the first private key section with the
/// layout that its label names, or an error. The result depends on the text
/// alone.
#[verifier::external_body]
fn read_private_key(pem: &[u8]) -> (r: Result<PrivateKey, String>)
    ensures
        private_view(r) == pem_private_key(pem@),
{
    let key = PrivateKeyDer::from_pem_slice(pem).map_err(|e| e.to_string())?;
    let der = key.secret_der().to_vec();
    match key {
        PrivateKeyDer::Pkcs1(_) => Ok(PrivateKey { kind: KeyKind::Pkcs1, der }),
        PrivateKeyDer::Sec1(_) => Ok(PrivateKey { kind: KeyKind::Sec1, der }),
        PrivateKeyDer::Pkcs8(_) => Ok(PrivateKey { kind: KeyKind::Pkcs8, der }),
        _ => Ok(PrivateKey { kind: KeyKind::Other, der }),
    }
}

/// What a parsed bundle of certificates gives.
pub open spec fn bundle_outcome(
    parsed: Result<Seq<Seq<u8>>, Seq<char>>,
    r: Result<Vec<Vec<u8>>, ProxyError>,
) -> bool {
    match parsed {
        Ok(certs) => r matches Ok(v) && ders(v@) == certs,
        Err(why) => r matches Err(ProxyError::Tls(t)) && t@ == why,
    }
}

/// What a parsed chain, read from `path`, gives. A chain is not empty.
pub open spec fn chain_outcome(
    parsed: Result<Seq<Seq<u8>>, Seq<char>>,
    path: Seq<char>,
    r: Result<Vec<Vec<u8>>, ProxyError>,
) -> bool {
    match parsed {
        Ok(chain) => if chain.len() == 0 {
            r matches Err(ProxyError::Tls(t)) && t@ == "no certificates found in "@ + path
        } else {
            r matches Ok(v) && ders(v@) == chain
        },
        Err(why) => r matches Err(ProxyError::Tls(t)) && t@ == why,
    }
}

/// What the first section of a trusted certificate's file gives.
pub open spec fn first_outcome(
    parsed: Option<Result<Seq<u8>, Seq<char>>>,
    r: Result<Vec<u8>, ProxyError>,
) -> bool {
    match parsed {
        Some(Ok(der)) => r matches Ok(v) && v@ == der,
        Some(Err(why)) => r matches Err(ProxyError::Tls(t)) && t@ == why,
        None => r matches Err(ProxyError::Tls(t)) && t@ == "no certificate in file"@,
    }
}

/// What a parsed private key gives.
pub open spec fn key_outcome(
    parsed: Result<(KeyKind, Seq<u8>), Seq<char>>,
    r: Result<PrivateKey, ProxyError>,
) -> bool {
    match parsed {
        Ok((kind, der)) => r matches Ok(k) && k.kind == kind && k.der@ == der,
        Err(why) => r matches Err(ProxyError::Tls(t)) && t@ == why,
    }
}

/// A parsed chain, or the error that refuses it: `path` is where it was read.
pub fn checked_chain(parsed: Result<Vec<Vec<u8>>, String>, path: &str) -> (r: Result<
    Vec<Vec<u8>>,
    ProxyError,
>)
    ensures
        chain_outcome(certs_view(parsed), path@, r),
{
    match parsed {
        Ok(certs) => if certs.len() == 0 {
            Err(ProxyError::Tls(String::from_str("no certificates found in ").concat(path)))
        } else {
            Ok(certs)
        },
        Err(e) => Err(ProxyError::Tls(e)),
    }
}

/// A parsed first certificate, or the error that stands for it.
pub fn checked_first(parsed: Option<Result<Vec<u8>, String>>) -> (r: Result<Vec<u8>, ProxyError>)
    ensures
        first_outcome(first_view(parsed), r),
{
    match parsed {
        Some(Ok(der)) => Ok(der),
        Some(Err(e)) => Err(ProxyError::Tls(e)),
        None => Err(ProxyError::Tls(String::from_str("no certificate in file"))),
    }
}

/// The certificate chain that a PEM file holds; `path` is where it was read.
pub fn cert_chain(pem: &[u8], path: &str) -> (r: Result<Vec<Vec<u8>>, ProxyError>)
    ensures
        chain_outcome(pem_certificates(pem@), path@, r),
{
    checked_chain(read_certificates(pem), path)
}

/// Every certificate of a PEM bundle. An empty bundle is one.
pub fn certificates(pem: &[u8]) -> (r: Result<Vec<Vec<u8>>, ProxyError>)
    ensures
        bundle_outcome(pem_certificates(pem@), r),
{
    match read_certificates(pem) {
        Ok(certs) => Ok(certs),
        Err(e) => Err(ProxyError::Tls(e)),
    }
}

/// The first certificate of a PEM file: the one that a client trusts.
pub fn first_certificate(pem: &[u8]) -> (r: Result<Vec<u8>, ProxyError>)
    ensures
        first_outcome(pem_first_certificate(pem@), r),
{
    checked_first(read_first_certificate(pem))
}

/// The first private key of a PEM file.
pub fn private_key(pem: &[u8]) -> (r: Result<PrivateKey, ProxyError>)
    ensures
        key_outcome(pem_private_key(pem@), r),
{
    match read_private_key(pem) {
        Ok(key) => Ok(key),
        Err(e) => Err(ProxyError::Tls(e)),
    }
}

/// A certificate chain and its private key, out of the PEM files that hold
/// them. The chain is looked at first; `cert_path` is where it was read.
pub fn load_cert_chain(cert_pem: &[u8], key_pem: &[u8], cert_path: &str) -> (r: Result<
    (Vec<Vec<u8>>, PrivateKey),
    ProxyError,
>)
    ensures
        match r {
            Ok((certs, key)) => chain_outcome(pem_certificates(cert_pem@), cert_path@, Ok(certs))
                && key_outcome(pem_private_key(key_pem@), Ok(key)),
            Err(e) => chain_outcome(pem_certificates(cert_pem@), cert_path@, Err(e)) || {
                &&& pem_certificates(cert_pem@) matches Ok(chain) && chain.len() > 0
                &&& key_outcome(pem_private_key(key_pem@), Err(e))
            },
        },
{
    match cert_chain(cert_pem, cert_path) {
        Ok(certs) => match private_key(key_pem) {
            Ok(key) => Ok((certs, key)),
            Err(e) => Err(e),
        },
        Err(e) => Err(e),
    }
}

/// The layout that the first bytes of a private key show (RFC 5208, RFC 8017,
/// RFC 5915): behind the head of a SEQUENCE, a version number with an
/// algorithm after it is PKCS#8; else version 0 is PKCS#1, and version 1 SEC1.
pub open spec fn kind_of_der(der: Seq<u8>) -> Option<KeyKind> {
    let head: int = if der[1] >= 128 {
        2 + (der[1] - 128)
    } else {
        2
    };
    let body = der.skip(head);
    if der.len() < 2 || der[0] != 0x30 || head > der.len() || body.len() < 3 || body[0] != 2
        || body[1] != 1 {
        None
    } else if body.len() >= 4 && body[3] == 0x30 {
        Some(KeyKind::Pkcs8)
    } else if body[2] == 0 {
        Some(KeyKind::Pkcs1)
    } else if body[2] == 1 {
        Some(KeyKind::Sec1)
    } else {
        None
    }
}

/// A key of a layout that was found, or the refusal of one without.
pub open spec fn kind_found(der: Seq<u8>, r: Result<KeyKind, String>) -> bool {
    match kind_of_der(der) {
        Some(kind) => r == Ok::<KeyKind, String>(kind),
        None => r matches Err(e) && e@ == "unknown or invalid key format"@,
    }
}

/// `PrivateKeyDer::try_from` some bytes: the layout that they show.
#[verifier::external_body]
fn key_kind(der: &[u8]) -> (r: Result<KeyKind, String>)
    ensures
        kind_found(der@, r),
{
    match PrivateKeyDer::try_from(der).map_err(|e| e.to_string())? {
        PrivateKeyDer::Pkcs1(_) => Ok(KeyKind::Pkcs1),
        PrivateKeyDer::Sec1(_) => Ok(KeyKind::Sec1),
        PrivateKeyDer::Pkcs8(_) => Ok(KeyKind::Pkcs8),
        _ => Ok(KeyKind::Other),
    }
}

/// The bytes that stand for a name in a certificate: the octets of an address,
/// else the text.
pub open spec fn name_bytes(name: Seq<char>) -> Seq<u8> {
    match ip_of_text(name) {
        Some(ip) => ip.spec_octets(),
        None => encode_utf8(name),
    }
}

/// The bytes stand somewhere in the certificate.
pub open spec fn holds_bytes(cert: Seq<u8>, bytes: Seq<u8>) -> bool {
    exists|k: int|
        0 <= k && k + bytes.len() <= cert.len() && #[trigger] cert.subrange(k, k + bytes.len())
            == bytes
}

/// The certificate is for every one of the names, which are ASCII.
pub open spec fn certifies(cert: Seq<u8>, names: Seq<Seq<char>>) -> bool {
    forall|i: int|
        0 <= i < names.len() ==> is_ascii_chars(#[trigger] names[i]) && holds_bytes(
            cert,
            name_bytes(names[i]),
        )
}

/// What holds of every certificate and key that are generated for some names:
/// the certificate is for them, and the key is laid out as PKCS#8.
pub open spec fn made_for(
    names: Seq<Seq<char>>,
    generated: Result<(Vec<u8>, Vec<u8>), String>,
) -> bool {
    generated matches Ok(pair) ==> certifies(pair.0@, names) && kind_of_der(pair.1@) == Some(
        KeyKind::Pkcs8,
    )
}

/// `rcgen::generate_simple_self_signed`: a certificate for some names, and its
/// private key, both random. A name that is neither the text of an address nor
/// ASCII is refused; the others stand in the certificate, as octets or as
/// text. The key is PKCS#8. Whether a key can be generated is left unsaid: it
/// depends on the system's randomness.
#[verifier::external_body]
fn self_signed(names: Vec<String>) -> (r: Result<(Vec<u8>, Vec<u8>), String>)
    ensures
        made_for(texts(names@), r),
{
    rcgen::generate_simple_self_signed(names)
        .map(|c| (c.cert.der().as_ref().to_vec(), c.signing_key.serialize_der()))
        .map_err(|e| e.to_string())
}

/// What a generated certificate and key give.
pub open spec fn generated_outcome(
    generated: Result<(Vec<u8>, Vec<u8>), String>,
    r: Result<(Vec<u8>, PrivateKey), ProxyError>,
) -> bool {
    match generated {
        Ok((cert, der)) => match kind_of_der(der@) {
            Some(kind) => r == Ok::<(Vec<u8>, PrivateKey), ProxyError>(
                (cert, PrivateKey { kind, der }),
            ),
            None => r matches Err(ProxyError::Tls(t)) && t@
                == "invalid generated key: unknown or invalid key format"@,
        },
        Err(why) => r matches Err(ProxyError::Tls(t)) && t@ == "self-signed generation failed: "@
            + why@,
    }
}

/// A generated certificate with its private key, whose layout is found out.
pub fn checked_pair(generated: Result<(Vec<u8>, Vec<u8>), String>) -> (r: Result<
    (Vec<u8>, PrivateKey),
    ProxyError,
>)
    ensures
        generated_outcome(generated, r),
{
    match generated {
        Ok((cert, der)) => match key_kind(der.as_slice()) {
            Ok(kind) => Ok((cert, PrivateKey { kind, der })),
            Err(e) => {
                proof {
                    reveal_strlit("invalid generated key: ");
                    reveal_strlit("unknown or invalid key format");
                    reveal_strlit("invalid generated key: unknown or invalid key format");
                    assert("invalid generated key: "@ + "unknown or invalid key format"@
                        =~= "invalid generated key: unknown or invalid key format"@);
                }
                Err(ProxyError::Tls(String::from_str("invalid generated key: ").concat(e.as_str())))
            },
        },
        Err(e) => Err(
            ProxyError::Tls(
                String::from_str("self-signed generation failed: ").concat(e.as_str()),
            ),
        ),
    }
}

/// The names that a certificate is asked for, as they are handed on.
pub fn san_names(subject_alt_names: &[&str]) -> (out: Vec<String>)
    ensures
        texts(out@) == slices(subject_alt_names@),
{
    let mut out: Vec<String> = Vec::new();
    let mut i: usize = 0;
    proof {
        assert(texts(out@) =~= slices(subject_alt_names@.take(0)));
    }
    while i < subject_alt_names.len()
        invariant
            i <= subject_alt_names@.len(),
            texts(out@) == slices(subject_alt_names@.take(i as int)),
        decreases subject_alt_names@.len() - i,
    {
        push_text(&mut out, subject_alt_names[i]);
        i = i + 1;
        proof {
            assert(slices(subject_alt_names@.take(i as int)) =~= slices(
                subject_alt_names@.take(i - 1),
            ).push(subject_alt_names@[i - 1]@));
        }
    }
    proof {
        assert(subject_alt_names@.take(i as int) =~= subject_alt_names@);
    }
    out
}

/// What a certificate that was asked for some names comes to.
pub open spec fn issued(
    names: Seq<Seq<char>>,
    generated: Result<(Vec<u8>, Vec<u8>), String>,
    r: Result<(Vec<u8>, PrivateKey), ProxyError>,
) -> bool {
    made_for(names, generated) && generated_outcome(generated, r)
}

/// Generate a self-signed certificate and private key for the given names.
pub fn generate_self_signed_cert(subject_alt_names: &[&str]) -> (r: Result<
    (Vec<u8>, PrivateKey),
    ProxyError,
>)
    ensures
        exists|generated: Result<(Vec<u8>, Vec<u8>), String>| #[trigger]
            issued(slices(subject_alt_names@), generated, r),
        r matches Ok(pair) ==> certifies(pair.0@, slices(subject_alt_names@)) && pair.1.kind
            == KeyKind::Pkcs8 && kind_of_der(pair.1.der@) == Some(KeyKind::Pkcs8),
        r matches Err(e) ==> e matches ProxyError::Tls(t)
            && "self-signed generation failed: "@.is_prefix_of(t@),
        !(forall|i: int|
            0 <= i < subject_alt_names@.len() ==> is_ascii_chars(
                (#[trigger] subject_alt_names@[i])@,
            )) ==> r is Err,
{
    let generated = self_signed(san_names(subject_alt_names));
    let ghost g = generated;
    let r = checked_pair(generated);
    proof {
        assert(issued(slices(subject_alt_names@), g, r));
        if r is Ok {
            assert forall|i: int| 0 <= i < subject_alt_names@.len() implies is_ascii_chars(
                (#[trigger] subject_alt_names@[i])@,
            ) by {
                assert(slices(subject_alt_names@)[i] == subject_alt_names@[i]@);
            }
        }
    }
    r
}

/// A key is told by what its outer sequence starts with, however its length is
/// written: a version and then a sequence is PKCS#8; version 0 otherwise is
/// PKCS#1 and version 1 is SEC1; anything else is no key.
pub proof fn lemma_kind_of_der(len: Seq<u8>, version: u8, rest: Seq<u8>)
    requires
        len.len() > 0,
        len[0] < 128 && len.len() == 1 || len[0] >= 128 && len.len() == 1 + (len[0] - 128),
    ensures
        ({
            let der = seq![0x30u8] + len + seq![2u8, 1, version] + rest;
            kind_of_der(der) == if rest.len() > 0 && rest[0] == 0x30 {
                Some(KeyKind::Pkcs8)
            } else if version == 0 {
                Some(KeyKind::Pkcs1)
            } else if version == 1 {
                Some(KeyKind::Sec1)
            } else {
                None
            }
        }),
{
    let der = seq![0x30u8] + len + seq![2u8, 1, version] + rest;
    let head = 1 + len.len() as int;
    assert(der[1] == len[0]);
    let body = der.skip(head);
    assert(body =~= seq![2u8, 1, version] + rest);
    if rest.len() > 0 {
        assert(body[3] == rest[0]);
    }
}

/// A chain is taken, certificate by certificate and in order, exactly if it
/// could be read and holds any; a bundle may hold none.
pub proof fn lemma_chain(
    parsed: Result<Seq<Seq<u8>>, Seq<char>>,
    path: Seq<char>,
    chain: Result<Vec<Vec<u8>>, ProxyError>,
    bundle: Result<Vec<Vec<u8>>, ProxyError>,
    i: int,
)
    requires
        chain_outcome(parsed, path, chain),
        bundle_outcome(parsed, bundle),
    ensures
        chain is Ok <==> parsed is Ok && parsed->Ok_0.len() > 0,
        bundle is Ok <==> parsed is Ok,
        chain matches Ok(v) ==> v@.len() == parsed->Ok_0.len() && (0 <= i < v@.len() ==> v@[i]@
            == parsed->Ok_0[i]),
        bundle matches Ok(v) ==> v@.len() == parsed->Ok_0.len() && (0 <= i < v@.len() ==> v@[i]@
            == parsed->Ok_0[i]),
{
    if let Ok(v) = chain {
        assert(ders(v@).len() == v@.len());
        if 0 <= i < v@.len() {
            assert(ders(v@)[i] == v@[i]@);
        }
    }
    if let Ok(v) = bundle {
        assert(ders(v@).len() == v@.len());
        if 0 <= i < v@.len() {
            assert(ders(v@)[i] == v@[i]@);
        }
    }
}

/// A generated certificate is handed on with its key exactly if the key is one
/// of the known kinds, and the kind is told by the key itself.
pub proof fn lemma_generated(
    generated: Result<(Vec<u8>, Vec<u8>), String>,
    r: Result<(Vec<u8>, PrivateKey), ProxyError>,
)
    requires
        generated_outcome(generated, r),
    ensures
        r is Ok <==> generated is Ok && kind_of_der(generated->Ok_0.1@) is Some,
        r matches Ok(pair) ==> pair.0 == generated->Ok_0.0 && pair.1.der == generated->Ok_0.1
            && Some(pair.1.kind) == kind_of_der(pair.1.der@),
{
}

} // verus!
