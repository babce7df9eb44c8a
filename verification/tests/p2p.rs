//! The peer-to-peer direct path.

use base64::Engine;
use ciborium::Value;
use straw::error::ProxyError;
use straw::net::{IpAddr, Ipv4Addr, Ipv6Addr, SocketAddr};
use straw::p2p::candidates::{gather, Sources};
use straw::p2p::identity::{pin_of_spki, pins_match, Identity};
use straw::p2p::inner_tls::PinVerifier;
use straw::p2p::portmap::{
    natpmp_map_request, parse_default_gateway, parse_natpmp_external, parse_natpmp_map,
    parse_pcp_map, pcp_map_request, v4_from_mapped, v4_mapped, PROTO_UDP,
};
use straw::p2p::predict::{classify, predict_range, Mapping};
use straw::p2p::relay_socket::{frame_bind, RelayRoutes};
use straw::p2p::strategy::{DirectMode, PunchStrategy};
use straw::p2p::stun::{
    decode_addr, encode_addr, encode_binding_request, parse_binding_response, NatMapping,
    ATTR_OTHER_ADDRESS, ATTR_XOR_MAPPED_ADDRESS, BINDING_REQUEST, BINDING_SUCCESS, MAGIC_COOKIE,
};
use straw::p2p::token::{TokenV2, TOKEN_VERSION};
use straw::p2p::wire::{
    frame_message, next_message, pair_candidates, Candidate, CandidateKind, Control, WireError,
    MAX_PAIRS_PER_ROUND,
};
use straw::udp_bind::{Binding, CompressionAssign, ContextTable};

fn ip(s: &str) -> IpAddr {
    match s.parse().unwrap() {
        core::net::IpAddr::V4(a) => IpAddr::V4(Ipv4Addr { bits: a.into() }),
        core::net::IpAddr::V6(a) => IpAddr::V6(Ipv6Addr { bits: a.into() }),
    }
}

fn addr(s: &str) -> SocketAddr {
    let a: core::net::SocketAddr = s.parse().unwrap();
    SocketAddr::new(ip(&a.ip().to_string()), a.port())
}

#[test]
fn parses_and_renders_every_variant() {
    for s in [
        PunchStrategy::Basic,
        PunchStrategy::Predict,
        PunchStrategy::Birthday,
        PunchStrategy::RelayAssisted,
    ] {
        assert_eq!(s.as_str().parse::<PunchStrategy>().unwrap(), s);
    }
    assert_eq!(
        "relay_assisted".parse::<PunchStrategy>().unwrap(),
        PunchStrategy::RelayAssisted
    );
    assert!("bogus".parse::<PunchStrategy>().is_err());
    assert_eq!(PunchStrategy::default(), PunchStrategy::Basic);
}

#[test]
fn direct_mode_parses_and_gates_the_right_things() {
    for m in [DirectMode::Reflexive, DirectMode::Full, DirectMode::Off] {
        assert_eq!(m.as_str().parse::<DirectMode>().unwrap(), m);
    }
    // "relay" is the intuitive spelling of pinning to the relay path.
    assert_eq!("relay".parse::<DirectMode>().unwrap(), DirectMode::Off);
    assert!("bogus".parse::<DirectMode>().is_err());

    // Only `full` discloses a LAN address; only `off` skips the punch.
    assert_eq!(DirectMode::default(), DirectMode::Reflexive);
    assert!(!DirectMode::Reflexive.offers_host());
    assert!(DirectMode::Full.offers_host());
    assert!(!DirectMode::Off.offers_host());
    assert!(DirectMode::Reflexive.punches());
    assert!(DirectMode::Full.punches());
    assert!(!DirectMode::Off.punches());
}

#[test]
fn gathers_in_priority_order_with_the_relay_always_present() {
    let set = gather(&Sources {
        host: vec![addr("192.168.1.2:5000")],
        reflexive: Some(addr("203.0.113.2:41000")),
        relay: addr("198.51.100.5:32768"),
    });
    assert_eq!(set.len(), 3);
    assert_eq!(set[0].kind, CandidateKind::Host);
    assert_eq!(set[1].kind, CandidateKind::Reflexive);
    assert_eq!(set[2].kind, CandidateKind::Relay);
}

#[test]
fn reflexive_only_is_the_common_nat_case() {
    // No host candidates (default --direct=reflexive).
    let set = gather(&Sources {
        host: vec![],
        reflexive: Some(addr("203.0.113.2:41000")),
        relay: addr("198.51.100.5:32768"),
    });
    assert_eq!(set.len(), 2);
    assert_eq!(set[0].kind, CandidateKind::Reflexive);
    assert_eq!(set[1].kind, CandidateKind::Relay);
}

#[test]
fn duplicate_addresses_are_collapsed() {
    // Full-cone NAT: the reflexive address equals the relay-seen public
    // address, and a host equals the reflexive (no NAT). Only distinct
    // addresses survive; the relay is always represented.
    let same = addr("203.0.113.2:41000");
    let set = gather(&Sources {
        host: vec![same],
        reflexive: Some(same),
        relay: addr("198.51.100.5:32768"),
    });
    let addrs: Vec<_> = set.iter().map(|c| c.addr).collect();
    assert_eq!(addrs.len(), 2);
    assert!(addrs.contains(&same));
    assert!(addrs.contains(&addr("198.51.100.5:32768")));
}

#[test]
fn no_reflexive_still_yields_the_relay_candidate() {
    let set = gather(&Sources {
        host: vec![],
        reflexive: None,
        relay: addr("198.51.100.5:32768"),
    });
    assert_eq!(set.len(), 1);
    assert_eq!(set[0].kind, CandidateKind::Relay);
}

#[test]
fn binding_request_header() {
    let txid = [7u8; 12];
    let req = encode_binding_request(&txid);
    assert_eq!(req.len(), 20);
    assert_eq!(u16::from_be_bytes([req[0], req[1]]), BINDING_REQUEST);
    assert_eq!(
        u32::from_be_bytes([req[4], req[5], req[6], req[7]]),
        MAGIC_COOKIE
    );
    assert_eq!(&req[8..20], &txid);
}

#[test]
fn xor_mapped_address_round_trips() {
    let a = addr("198.51.100.7:41000");
    let val = encode_addr(a, true);
    // The encoded address (val[4..8]) must not equal the plaintext (XOR-folded).
    assert_ne!(&val[4..8], &[198, 51, 100, 7]);
    assert_eq!(decode_addr(&val, true), Some(a));

    // OTHER-ADDRESS is plaintext.
    let plain = encode_addr(a, false);
    assert_eq!(&plain[4..8], &[198, 51, 100, 7]);
    assert_eq!(decode_addr(&plain, false), Some(a));
}

#[test]
fn parses_a_full_response() {
    let txid = [3u8; 12];
    let mapped = addr("203.0.113.9:50000");
    let other = addr("203.0.113.10:3479");

    let mut msg = Vec::new();
    msg.extend_from_slice(&BINDING_SUCCESS.to_be_bytes());
    let body_len_pos = msg.len();
    msg.extend_from_slice(&0u16.to_be_bytes()); // length placeholder
    msg.extend_from_slice(&MAGIC_COOKIE.to_be_bytes());
    msg.extend_from_slice(&txid);
    let mut body = Vec::new();
    for (atype, val) in [
        (ATTR_XOR_MAPPED_ADDRESS, encode_addr(mapped, true)),
        (ATTR_OTHER_ADDRESS, encode_addr(other, false)),
    ] {
        body.extend_from_slice(&atype.to_be_bytes());
        body.extend_from_slice(&(val.len() as u16).to_be_bytes());
        body.extend_from_slice(&val);
    }
    let len = body.len() as u16;
    msg[body_len_pos..body_len_pos + 2].copy_from_slice(&len.to_be_bytes());
    msg.extend_from_slice(&body);

    let (got_mapped, got_other) = parse_binding_response(&msg, &txid).unwrap();
    assert_eq!(got_mapped, mapped);
    assert_eq!(got_other, Some(other));

    // A wrong transaction id is rejected.
    assert!(parse_binding_response(&msg, &[9u8; 12]).is_err());
}

#[test]
fn punchability() {
    assert!(NatMapping::EndpointIndependent.is_punchable());
    assert!(NatMapping::Open.is_punchable());
    assert!(!NatMapping::AddressAndPortDependent.is_punchable());
    assert!(!NatMapping::AddressDependent.is_punchable());
}

#[test]
fn a_constant_small_stride_reads_as_sequential() {
    assert_eq!(
        classify(&[100, 101, 102]),
        Mapping::Sequential { stride: 1 }
    );
    assert_eq!(
        classify(&[500, 502, 504]),
        Mapping::Sequential { stride: 2 }
    );
    // A port-overloading NAT reuses one port: stride 0, still predictable.
    assert_eq!(
        classify(&[700, 700, 700]),
        Mapping::Sequential { stride: 0 }
    );
    // Descending allocators exist too.
    assert_eq!(
        classify(&[900, 899, 898]),
        Mapping::Sequential { stride: -1 }
    );
}

#[test]
fn anything_irregular_or_far_apart_reads_as_random() {
    // Irregular gaps.
    assert_eq!(classify(&[100, 101, 105]), Mapping::Random);
    // Constant but too large a stride to be a counter we can follow.
    assert_eq!(classify(&[100, 200, 300]), Mapping::Random);
    // Not enough samples to say anything.
    assert_eq!(classify(&[100]), Mapping::Random);
    assert_eq!(classify(&[]), Mapping::Random);
}

#[test]
fn the_predicted_window_is_centred_on_the_next_port() {
    let out = predict_range(ip("203.0.113.7"), 1000, 2, 2);
    let ports: Vec<u16> = out.iter().map(|a| a.port).collect();
    // Next port is 1002; the window is ±2 around it.
    assert_eq!(ports, vec![1000, 1001, 1002, 1003, 1004]);
    assert!(out.iter().all(|a| a.ip == ip("203.0.113.7")));
}

#[test]
fn the_window_stays_inside_the_port_range() {
    // Near zero: never predicts port 0, which is not a real destination.
    let low = predict_range(ip("203.0.113.7"), 2, -1, 6);
    assert_eq!(low.first().unwrap().port, 1);
    // Near the top: never wraps past 65535.
    let high = predict_range(ip("203.0.113.7"), u16::MAX - 1, 1, 6);
    assert_eq!(high.last().unwrap().port, u16::MAX);
}

#[test]
fn parses_the_default_gateway() {
    // Iface Destination Gateway Flags … — default row + a non-default row.
    let table = "Iface\tDestination\tGateway\tFlags\n\
                 eth0\t00000000\t0102A8C0\t0003\n\
                 eth0\t0002A8C0\t00000000\t0001\n";
    // 0102A8C0 little-endian = C0 A8 02 01 = 192.168.2.1
    assert_eq!(
        parse_default_gateway(table),
        Some(Ipv4Addr::new(192, 168, 2, 1))
    );
    assert_eq!(parse_default_gateway("Iface\tDestination\tGateway\n"), None);
}

#[test]
fn natpmp_map_round_trips() {
    let req = natpmp_map_request(41000, 0, 3600);
    assert_eq!(req[0], 0);
    assert_eq!(req[1], 1);
    assert_eq!(u16::from_be_bytes([req[4], req[5]]), 41000);
    assert_eq!(u32::from_be_bytes([req[8], req[9], req[10], req[11]]), 3600);

    // A well-formed success response.
    let mut resp = vec![0u8; 16];
    resp[1] = 129;
    resp[8..10].copy_from_slice(&41000u16.to_be_bytes());
    resp[10..12].copy_from_slice(&50000u16.to_be_bytes());
    resp[12..16].copy_from_slice(&3600u32.to_be_bytes());
    assert_eq!(parse_natpmp_map(&resp).unwrap(), (41000, 50000, 3600));

    resp[3] = 2; // non-zero result
    assert!(parse_natpmp_map(&resp).is_err());
}

#[test]
fn natpmp_external_parses() {
    let mut resp = vec![0u8; 12];
    resp[1] = 128;
    resp[8..12].copy_from_slice(&[198, 51, 100, 7]);
    assert_eq!(
        parse_natpmp_external(&resp).unwrap(),
        Ipv4Addr::new(198, 51, 100, 7)
    );
}

#[test]
fn pcp_map_round_trips() {
    let nonce = [7u8; 12];
    let req = pcp_map_request(Ipv4Addr::new(10, 0, 0, 2), nonce, 41000, 0, 3600);
    assert_eq!(req.len(), 60);
    assert_eq!(req[0], 2);
    assert_eq!(req[1], 1);
    assert_eq!(&req[24..36], &nonce);
    assert_eq!(req[36], PROTO_UDP);
    assert_eq!(u16::from_be_bytes([req[40], req[41]]), 41000);

    // Build a matching success response.
    let mut resp = vec![0u8; 60];
    resp[0] = 2;
    resp[1] = 0x81;
    resp[4..8].copy_from_slice(&3600u32.to_be_bytes());
    resp[24..36].copy_from_slice(&nonce);
    resp[42..44].copy_from_slice(&50000u16.to_be_bytes());
    resp[44..60].copy_from_slice(&v4_mapped(Ipv4Addr::new(198, 51, 100, 7)));
    assert_eq!(
        parse_pcp_map(&resp, &nonce).unwrap(),
        (Ipv4Addr::new(198, 51, 100, 7), 50000, 3600)
    );

    // Nonce mismatch and error code are rejected.
    assert!(parse_pcp_map(&resp, &[9u8; 12]).is_err());
    resp[3] = 2;
    assert!(parse_pcp_map(&resp, &nonce).is_err());
}

#[test]
fn v4_mapping_round_trips() {
    let ip = Ipv4Addr::new(203, 0, 113, 5);
    assert_eq!(v4_from_mapped(&v4_mapped(ip)), Some(ip));
}

#[test]
fn pin_is_stable_across_pem_round_trip() {
    let id = Identity::generate().unwrap();
    let pin = id.pin();
    let pem = id.to_pem();

    let restored = Identity::from_pem(pem.as_str()).unwrap();
    assert_eq!(restored.pin(), pin, "pin survives persistence");
    assert_eq!(restored.spki_der(), id.spki_der());
    // And the pin is exactly SHA-256 of the SPKI.
    assert_eq!(pin, pin_of_spki(&id.spki_der()));
}

#[test]
fn distinct_identities_have_distinct_pins() {
    let a = Identity::generate().unwrap().pin();
    let b = Identity::generate().unwrap().pin();
    assert_ne!(a, b);
}

#[test]
fn pins_match_is_exact() {
    let id = Identity::generate().unwrap();
    let mut other = id.pin();
    assert!(pins_match(&id.pin(), &id.pin()));
    other[0] ^= 1;
    assert!(!pins_match(&id.pin(), &other));
}

#[test]
fn rejects_malformed_pem() {
    assert!(Identity::from_pem("not a key").is_err());
}

#[test]
fn pin_check_enforces_expected_and_learns_on_tofu() {
    let peer = Identity::generate().unwrap();
    let peer_spki = peer.spki_der();

    // Expected-pin mode: the matching pin passes, a wrong one fails.
    let mut v = PinVerifier::new(Some(peer.pin()));
    assert!(v.check_pin(&peer_spki).is_ok());
    assert_eq!(v.learned_pin(), Some(peer.pin()));

    let mut wrong = PinVerifier::new(Some([0xff; 32]));
    assert!(wrong.check_pin(&peer_spki).is_err());
    assert_eq!(wrong.learned_pin(), None);

    // TOFU: any pin accepted and recorded.
    let mut tofu = PinVerifier::new(None);
    assert!(tofu.check_pin(&peer_spki).is_ok());
    assert_eq!(tofu.learned_pin(), Some(peer.pin()));
}

fn table_with(uncompressed: u64, compressed: Option<(u64, SocketAddr)>) -> ContextTable {
    let mut t = ContextTable::new();
    t.register(CompressionAssign {
        context_id: uncompressed,
        binding: Binding::Uncompressed,
    })
    .unwrap();
    t.ack(uncompressed).unwrap();
    if let Some((id, peer)) = compressed {
        t.register(CompressionAssign {
            context_id: id,
            binding: Binding::Compressed(peer),
        })
        .unwrap();
        t.ack(id).unwrap();
    }
    t
}

/// Framing follows the table, and the choice is what the lockdown turns on:
/// while the uncompressed context is open every destination is reachable, and
/// once it is closed only the bound peer is — anything else must be dropped
/// rather than sent with a framing the relay would refuse.
#[test]
fn framing_prefers_the_compressed_context_and_stops_at_lockdown() {
    let peer = addr("198.51.100.7:443");
    let other = addr("203.0.113.9:443");

    // Before lockdown: both destinations ride the uncompressed context,
    // which spells the address out (so the body is longer than the input).
    let open = table_with(2, None);
    let to_peer = frame_bind(4, &open, peer, b"hello").expect("uncompressed carries the peer");
    assert!(
        frame_bind(4, &open, other, b"hello").is_some(),
        "and anyone else"
    );

    // After the compressed context is acked, the peer's datagrams elide
    // the address: same payload, strictly smaller wire.
    let bound = table_with(2, Some((4, peer)));
    let compressed = frame_bind(4, &bound, peer, b"hello").expect("compressed carries it");
    assert!(
        compressed.len() < to_peer.len(),
        "compressed framing should be smaller: {} vs {}",
        compressed.len(),
        to_peer.len()
    );

    // After lockdown — uncompressed closed — only the peer is reachable.
    let mut locked = table_with(2, Some((4, peer)));
    locked.close(2);
    assert!(
        frame_bind(4, &locked, peer, b"hello").is_some(),
        "the relay path must keep working for the peer"
    );
    assert!(
        frame_bind(4, &locked, other, b"hello").is_none(),
        "no context can carry anyone else; the packet must be dropped"
    );
}

#[test]
fn a_dialer_presets_its_peer_and_learns_nothing_more() {
    let peer = addr("198.51.100.1:30001");
    let mut routes = RelayRoutes::new(Some(peer));

    // The preset peer is tunnelled; a candidate address is not.
    assert!(routes.via_relay(peer));
    assert!(!routes.via_relay(addr("203.0.113.9:41000")));

    // Anything the relay forwards afterwards leaves the route untouched.
    assert!(!routes.learn(addr("203.0.113.9:41000")));
    assert!(!routes.via_relay(addr("203.0.113.9:41000")));
    assert_eq!(routes.peer(), Some(peer));
}

#[test]
fn an_acceptor_learns_one_source_and_a_spoof_cannot_capture_a_candidate() {
    // The acceptor starts empty and binds to the first source it hears,
    // which is the dialer answering through the relay.
    let mut routes = RelayRoutes::new(None);
    let peer = addr("198.51.100.1:30001");
    assert!(routes.learn(peer));
    assert!(routes.via_relay(peer));

    // The relay's bind port is public, so anyone may send to it. A spoofed
    // source arriving later must NOT become a tunnel route.
    let peer_candidate = addr("203.0.113.9:41000");
    assert!(!routes.learn(peer_candidate));
    assert!(
        !routes.via_relay(peer_candidate),
        "a later source must not capture the route"
    );
    assert_eq!(routes.peer(), Some(peer), "exactly one relay remote");
}

fn text(s: &str) -> Value {
    Value::Text(s.to_string())
}

/// A token's CBOR: a map with the fields' numbers as keys.
fn token_cbor(t: &TokenV2) -> Vec<u8> {
    let map = Value::Map(vec![
        (text("1"), Value::from(t.v)),
        (text("2"), text(&t.relay)),
        (text("3"), Value::Bytes(t.rpin.clone())),
        (text("4"), text(&t.auth)),
        (text("5"), Value::Bytes(t.ppin.clone())),
        (
            text("6"),
            Value::Array(t.paddr.iter().map(|a| text(a)).collect()),
        ),
        (text("7"), Value::from(t.exp)),
    ]);
    let mut out = Vec::new();
    ciborium::into_writer(&map, &mut out).unwrap();
    out
}

fn token_of(cbor: &[u8]) -> Option<TokenV2> {
    let value: Value = ciborium::from_reader(cbor).ok()?;
    let map = value.into_map().ok()?;
    let field = |k: &str| map.iter().find(|e| e.0 == text(k)).map(|e| e.1.clone());
    Some(TokenV2 {
        v: u8::try_from(field("1")?.into_integer().ok()?).ok()?,
        relay: field("2")?.into_text().ok()?,
        rpin: field("3")?.into_bytes().ok()?,
        auth: field("4")?.into_text().ok()?,
        ppin: field("5")?.into_bytes().ok()?,
        paddr: field("6")?
            .into_array()
            .ok()?
            .into_iter()
            .filter_map(|a| a.into_text().ok())
            .collect(),
        exp: u64::try_from(field("7")?.into_integer().ok()?).ok()?,
    })
}

fn encode(t: &TokenV2) -> String {
    TokenV2::encode(&token_cbor(t))
}

fn decode(s: &str) -> Result<TokenV2, ProxyError> {
    let cbor = TokenV2::unframe(s)?;
    match token_of(&cbor) {
        Some(t) => TokenV2::decode(t),
        None => Err(ProxyError::InvalidRequest(
            "token is not valid CBOR".to_string(),
        )),
    }
}

/// A bearer credential must not be printable.
#[test]
fn debug_does_not_print_the_relay_credential() {
    let token = TokenV2 {
        v: TOKEN_VERSION,
        relay: "h3://relay.example:443".into(),
        rpin: vec![1; 32],
        auth: "s3cret-bearer-value".into(),
        ppin: vec![2; 32],
        paddr: vec!["198.51.100.7:443".into()],
        exp: 0,
    };
    let rendered = token.to_debug();
    assert!(
        !rendered.contains("s3cret-bearer-value"),
        "the credential leaked into Debug output: {rendered}"
    );
    assert!(rendered.contains("<redacted>"), "{rendered}");
    // The non-secret fields are still there, or the redaction has made the
    // type useless to debug with.
    assert!(rendered.contains("relay.example"), "{rendered}");
}


fn sample() -> TokenV2 {
    TokenV2 {
        v: TOKEN_VERSION,
        relay: "h3://relay.example:443".into(),
        rpin: vec![0xab; 32],
        auth: "scoped-bearer-xyz".into(),
        ppin: vec![0xcd; 32],
        paddr: vec!["192.0.2.45:54321".into(), "[2001:db8::1]:54321".into()],
        exp: 1_756_600_000,
    }
}

#[test]
fn round_trips_through_the_textual_form() {
    let token = sample();
    let text = encode(&token);
    assert!(text.starts_with("sc2_"));
    assert!(decode(&text).ok().unwrap() == token);
}

#[test]
fn pins_come_back_as_fixed_arrays() {
    let token = decode(&encode(&sample())).ok().unwrap();
    assert_eq!(token.peer_pin(), [0xcd; 32]);
    assert_eq!(token.relay_pin(), [0xab; 32]);
}

#[test]
fn expiry_is_a_boundary() {
    let token = sample();
    assert!(!token.is_expired(token.exp - 1));
    assert!(token.is_expired(token.exp));
    assert!(token.is_expired(token.exp + 1));
}

#[test]
fn rejects_wrong_prefix() {
    let good = encode(&sample());
    let swapped = good.replacen("sc2_", "sc1_", 1);
    assert!(decode(&swapped).is_err());
    assert!(decode("no-prefix-at-all").is_err());
}

#[test]
fn rejects_a_different_version() {
    let mut token = sample();
    token.v = 3;
    let err = decode(&encode(&token)).err().unwrap().message();
    assert!(err.contains("unsupported token version 3"), "{err}");
}

#[test]
fn rejects_tampered_payload() {
    let text = encode(&sample());
    let b64 = text.strip_prefix("sc2_").unwrap();
    let mut cbor = base64::engine::general_purpose::URL_SAFE_NO_PAD
        .decode(b64)
        .unwrap();
    // Flip a structural byte near the front (the map header / first key),
    // which reliably breaks decoding — unlike a trailing base64 bit,
    // whose spare bits CBOR ignores.
    cbor[1] ^= 0xff;
    let tampered = format!(
        "sc2_{}",
        base64::engine::general_purpose::URL_SAFE_NO_PAD.encode(&cbor)
    );
    assert!(decode(&tampered).is_err());
    // Truncation is rejected too.
    let short = format!(
        "sc2_{}",
        base64::engine::general_purpose::URL_SAFE_NO_PAD.encode(&cbor[..cbor.len() / 2])
    );
    assert!(decode(&short).is_err());
}

#[test]
fn rejects_wrong_length_pins() {
    // Hand-build a CBOR map with a short rpin.
    let mut token = sample();
    token.rpin = vec![0x00; 16];
    let err = decode(&encode(&token)).err().unwrap().message();
    assert!(err.contains("32-byte"), "{err}");
}

#[test]
fn integer_keys_keep_the_encoding_compact() {
    // A string-keyed encoding of the same data would be much larger;
    // assert the map stays small (sanity that rename(int) took effect).
    let cbor_len = token_cbor(&sample()).len();
    assert!(
        cbor_len < 200,
        "unexpectedly large token CBOR: {cbor_len} bytes"
    );
}

fn map(entries: Vec<(&str, Value)>) -> Value {
    Value::Map(entries.into_iter().map(|(k, v)| (text(k), v)).collect())
}

/// A control message's CBOR: the variant's name over its fields.
fn control_cbor(m: &Control) -> Vec<u8> {
    let value = match m {
        Control::Candidate(c) => map(vec![(
            "cand",
            map(vec![
                ("s", Value::from(c.seq)),
                ("ip", Value::from(c.addr.ip.octets())),
                ("port", Value::from(c.addr.port)),
                (
                    "k",
                    text(match c.kind {
                        CandidateKind::Host => "host",
                        CandidateKind::Reflexive => "reflexive",
                        CandidateKind::Relay => "relay",
                    }),
                ),
            ]),
        )]),
        Control::Punch { round, pairs } => map(vec![(
            "punch",
            map(vec![
                ("round", Value::from(*round)),
                (
                    "pairs",
                    Value::Array(
                        pairs
                            .iter()
                            .map(|p| Value::Array(vec![Value::from(p.0), Value::from(p.1)]))
                            .collect(),
                    ),
                ),
            ]),
        )]),
        Control::Retire { seq } => map(vec![("retire", map(vec![("seq", Value::from(*seq))]))]),
    };
    let mut out = Vec::new();
    ciborium::into_writer(&value, &mut out).unwrap();
    out
}

fn number(v: &Value) -> Option<u32> {
    u32::try_from(v.as_integer()?).ok()
}

fn get<'a>(m: &'a [(Value, Value)], k: &str) -> Option<&'a Value> {
    m.iter().find(|e| e.0 == text(k)).map(|e| &e.1)
}

fn control_of(cbor: &[u8]) -> Option<Control> {
    let value: Value = ciborium::from_reader(cbor).ok()?;
    let outer = value.as_map()?;
    if let Some(c) = get(outer, "cand") {
        let c = c.as_map()?;
        let octets = get(c, "ip")?.as_bytes()?;
        let at = if octets.len() == 4 {
            IpAddr::V4(Ipv4Addr::read(octets, 0))
        } else {
            IpAddr::V6(Ipv6Addr::read(octets, 0))
        };
        let kind = match get(c, "k")?.as_text()? {
            "host" => CandidateKind::Host,
            "reflexive" => CandidateKind::Reflexive,
            _ => CandidateKind::Relay,
        };
        return Some(Control::Candidate(Candidate {
            seq: number(get(c, "s")?)?,
            addr: SocketAddr::new(at, number(get(c, "port")?)? as u16),
            kind,
        }));
    }
    if let Some(p) = get(outer, "punch") {
        let p = p.as_map()?;
        let mut pairs = Vec::new();
        for pair in get(p, "pairs")?.as_array()? {
            let pair = pair.as_array()?;
            pairs.push((number(&pair[0])?, number(&pair[1])?));
        }
        return Some(Control::Punch {
            round: number(get(p, "round")?)?,
            pairs,
        });
    }
    Some(Control::Retire {
        seq: number(get(get(outer, "retire")?.as_map()?, "seq")?)?,
    })
}

fn encode_control(m: &Control) -> Vec<u8> {
    frame_message(&control_cbor(m))
}

fn decode_control(buf: &[u8]) -> Result<Option<(Control, usize)>, WireError> {
    match next_message(buf) {
        None => Ok(None),
        Some(n) => match control_of(&buf[2..n]) {
            Some(m) => Ok(Some((m, n))),
            None => Err(WireError::BadCbor),
        },
    }
}

fn cand(seq: u32, at: &str, kind: CandidateKind) -> Candidate {
    Candidate {
        seq,
        addr: addr(at),
        kind,
    }
}

#[test]
fn control_messages_round_trip_length_delimited() {
    let msgs = [
        Control::Candidate(cand(1, "203.0.113.7:41000", CandidateKind::Reflexive)),
        Control::Punch {
            round: 2,
            pairs: vec![(1, 3), (2, 4)],
        },
        Control::Retire { seq: 5 },
    ];
    // Concatenate on a stream, decode back in order.
    let mut stream = Vec::new();
    for m in &msgs {
        stream.extend_from_slice(&encode_control(m));
    }
    let mut off = 0;
    let mut got = Vec::new();
    while let Some((m, n)) = decode_control(&stream[off..]).unwrap() {
        got.push(m);
        off += n;
    }
    assert_eq!(got, msgs);
    assert_eq!(off, stream.len());
}

#[test]
fn decode_waits_for_a_whole_message() {
    let wire = encode_control(&Control::Retire { seq: 9 });
    // A partial buffer yields None, not an error.
    assert_eq!(decode_control(&wire[..1]).unwrap(), None);
    assert_eq!(decode_control(&wire[..wire.len() - 1]).unwrap(), None);
    assert!(decode_control(&wire).unwrap().is_some());
}

#[test]
fn garbage_body_is_an_error_not_a_panic() {
    let mut wire = vec![0x00, 0x03];
    wire.extend_from_slice(&[0xff, 0xff, 0xff]);
    assert_eq!(decode_control(&wire), Err(WireError::BadCbor));
}

#[test]
fn priority_orders_host_over_reflexive_over_relay() {
    assert!(CandidateKind::Host.priority() > CandidateKind::Reflexive.priority());
    assert!(CandidateKind::Reflexive.priority() > CandidateKind::Relay.priority());
}

#[test]
fn pairing_prefers_high_priority_and_caps_per_round() {
    let local = vec![
        cand(1, "192.168.1.2:5000", CandidateKind::Host),
        cand(2, "203.0.113.2:5000", CandidateKind::Reflexive),
    ];
    let remote = vec![
        cand(10, "192.168.9.9:6000", CandidateKind::Host),
        cand(11, "203.0.113.9:6000", CandidateKind::Reflexive),
        cand(12, "198.51.100.9:6000", CandidateKind::Relay),
    ];
    let pairs = pair_candidates(&local, &remote);
    assert!(pairs.len() <= MAX_PAIRS_PER_ROUND);
    // Best pair is host×host (126+126).
    assert_eq!(pairs[0], (1, 10, addr("192.168.9.9:6000")));
}

#[test]
fn pairing_never_crosses_address_families() {
    let local = vec![cand(1, "192.168.1.2:5000", CandidateKind::Host)];
    let remote = vec![cand(10, "[2001:db8::9]:6000", CandidateKind::Host)];
    assert!(pair_candidates(&local, &remote).is_empty());
}
