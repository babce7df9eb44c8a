//! Certificates and keys out of PEM files.

use base64::Engine;
use straw::error::ProxyError;
use straw::tls::{
    cert_chain, certificates, checked_chain, checked_first, checked_pair, first_certificate,
    generate_self_signed_cert, load_cert_chain, private_key, san_names, KeyKind,
};

fn section(label: &str, der: &[u8]) -> String {
    let body = base64::engine::general_purpose::STANDARD.encode(der);
    format!("-----BEGIN {label}-----\n{body}\n-----END {label}-----\n")
}

fn said(e: ProxyError) -> String {
    match e {
        ProxyError::Tls(t) => t,
        _ => panic!("not a TLS error"),
    }
}

#[test]
fn a_chain_is_read_in_order_and_is_not_empty() {
    let pem = section("CERTIFICATE", &[1, 2, 3]) + &section("CERTIFICATE", &[4, 5]);
    let chain = vec![vec![1, 2, 3], vec![4, 5]];
    assert_eq!(cert_chain(pem.as_bytes(), "a.pem").unwrap(), chain);
    assert_eq!(certificates(pem.as_bytes()).unwrap(), chain);
    // Keys between the certificates are passed over.
    let mixed = section("PRIVATE KEY", &[9]) + &pem;
    assert_eq!(cert_chain(mixed.as_bytes(), "a.pem").unwrap(), chain);

    assert_eq!(
        said(cert_chain(b"nothing here", "/etc/a.pem").unwrap_err()),
        "no certificates found in /etc/a.pem"
    );
    assert!(certificates(b"nothing here").unwrap().is_empty());
    assert_eq!(
        said(checked_chain(Err("bad".to_string()), "a.pem").unwrap_err()),
        "bad"
    );
}

#[test]
fn only_the_first_certificate_counts_for_trust() {
    let good = section("CERTIFICATE", &[1, 2, 3]);
    let torn = good.clone() + "-----BEGIN CERTIFICATE-----\nAAAA\n";
    assert_eq!(first_certificate(torn.as_bytes()).unwrap(), vec![1, 2, 3]);
    assert!(certificates(torn.as_bytes()).is_err());
    assert!(cert_chain(torn.as_bytes(), "a.pem").is_err());

    let torn_first = "-----BEGIN CERTIFICATE-----\nA*A\n-----END CERTIFICATE-----\n".to_string();
    assert!(first_certificate((torn_first + &good).as_bytes()).is_err());
    assert_eq!(
        said(first_certificate(b"").unwrap_err()),
        "no certificate in file"
    );
    assert_eq!(said(checked_first(Some(Err("bad".to_string()))).unwrap_err()), "bad");
}

#[test]
fn a_key_keeps_the_layout_that_its_label_names() {
    for (label, kind) in [
        ("RSA PRIVATE KEY", KeyKind::Pkcs1),
        ("EC PRIVATE KEY", KeyKind::Sec1),
        ("PRIVATE KEY", KeyKind::Pkcs8),
    ] {
        let pem = section("CERTIFICATE", &[1]) + &section(label, &[7, 8]);
        let key = private_key(pem.as_bytes()).unwrap();
        assert_eq!(key.kind, kind);
        assert_eq!(key.der, vec![7, 8]);
    }
    assert!(private_key(section("CERTIFICATE", &[1]).as_bytes()).is_err());
}

#[test]
fn a_chain_and_its_key_are_loaded_together() {
    let certs = section("CERTIFICATE", &[1]);
    let key = section("PRIVATE KEY", &[2]);
    let (chain, found) = load_cert_chain(certs.as_bytes(), key.as_bytes(), "c.pem").unwrap();
    assert_eq!(chain, vec![vec![1]]);
    assert_eq!(found.der, vec![2]);
    // Without a chain the key is not looked at.
    assert_eq!(
        said(load_cert_chain(b"", b"", "c.pem").unwrap_err()),
        "no certificates found in c.pem"
    );
    let refused = said(load_cert_chain(certs.as_bytes(), b"", "c.pem").unwrap_err());
    assert_eq!(refused, said(private_key(b"").unwrap_err()));
}

#[test]
fn a_self_signed_certificate_comes_with_its_key() {
    let (cert, key) = generate_self_signed_cert(&["localhost"]).unwrap();
    assert_eq!(cert[0], 0x30);
    assert!(cert.windows(9).any(|w| w == b"localhost"));
    assert_eq!(key.kind, KeyKind::Pkcs8);
    let (other, _) = generate_self_signed_cert(&["localhost"]).unwrap();
    assert_ne!(cert, other);
    assert!(said(generate_self_signed_cert(&["localhost", "caf\u{e9}"]).unwrap_err())
        .starts_with("self-signed generation failed: "));

    // Every name stands in the certificate, an address as its octets.
    let (cert, _) = generate_self_signed_cert(&["relay.example", "192.0.2.77"]).unwrap();
    assert!(cert.windows(13).any(|w| w == b"relay.example"));
    assert!(cert.windows(4).any(|w| w == [192, 0, 2, 77]));
    assert!(!cert.windows(10).any(|w| w == b"192.0.2.77"));
    assert_eq!(san_names(&["a", "b.c"]), vec!["a".to_string(), "b.c".to_string()]);
    assert!(san_names(&[]).is_empty());

    for (der, kind) in [
        (vec![0x30, 5, 2, 1, 0, 0x30, 0], KeyKind::Pkcs8),
        (vec![0x30, 4, 2, 1, 0, 2], KeyKind::Pkcs1),
        (vec![0x30, 0x81, 4, 2, 1, 1, 4], KeyKind::Sec1),
    ] {
        let (cert, key) = checked_pair(Ok((vec![6], der.clone()))).unwrap();
        assert_eq!((cert, key.kind, key.der), (vec![6], kind, der));
    }
    for der in [vec![], vec![0x30], vec![0x31, 3, 2, 1, 0], vec![0x30, 0xff, 2, 1, 0], vec![0x30, 3, 2, 1, 2]] {
        assert_eq!(
            said(checked_pair(Ok((vec![6], der))).unwrap_err()),
            "invalid generated key: unknown or invalid key format"
        );
    }
    assert_eq!(
        said(checked_pair(Err("no entropy".to_string())).unwrap_err()),
        "self-signed generation failed: no entropy"
    );
}
