//! What holds of the peer-to-peer path as a whole, on concrete values.

use bytes::BytesMut;
use straw::capsule::{AddressAssign, AssignedAddress, Capsule, IpAddressRange};
use straw::client::TunnelClient;
use straw::clock::or_epoch;
use straw::codepoints::{ALPN_STRAWCAT, NAT_TRAVERSAL_FRAME_BASE, TOKEN_PREFIX};
use straw::daemon::{
    below_ipv6_minimum, client_auth, pin_for, raised_mtu, report, trust, tunnel_mtu, ClientAuth,
    Daemon, DaemonEvent, DaemonStep, Trust,
};
use straw::error::ProxyError;
use straw::net::{IpAddr, Ipv4Addr, Ipv4Net, Ipv6Addr, SocketAddr};
use straw::p2p::candidates::{gather, Sources};
use straw::p2p::holepunch::{local_candidates, punch_targets, remote_candidates};
use straw::p2p::identity::{pin_from, Identity};
use straw::p2p::native_punch::{
    candidates, path_outcome, PathNotice, RoundDriver, RoundEvent, RoundStep,
};
use straw::p2p::peer::{check_fresh, issuer_addr, relay_url};
use straw::p2p::portmap::{
    exchange_step, rand_nonce, Answer, Attempt, ExchangeStep, MapRequest, Mapping,
};
use straw::p2p::predict::predicted_candidates;
use straw::p2p::punch::{pick, Probe, Race, RaceEvent, RaceStep, Role};
use straw::p2p::relay_socket::{
    frame_bind, polled, route_packet, DrainEnd, LockdownEvent, LockdownStep, Outgoing,
    PathMuxHandle, Polled, RelayLockdown, RelayRoutes,
};
use straw::p2p::session::{PathState, PunchConfig};
use straw::p2p::strategy::{DirectMode, PunchStrategy};
use straw::p2p::stun::{
    answer, binding_step, encode_binding_request, encode_binding_response, listeners, new_txid,
    parse_binding_request, parse_binding_response, BindingStep, Detection, NatMapping, Progress,
    Reply,
};
use straw::p2p::token::TokenV2;
use straw::p2p::vpn::{build_context, client_mtu};
use straw::p2p::wire::{
    frame_message, pair_candidates, split_messages, Candidate, CandidateKind, Control, WireError,
};
use straw::udp_bind::{
    encode_context_capsule, Binding, CompressionAssign, ContextError, ContextTable,
};

fn ip(s: &str) -> IpAddr {
    match s.parse().unwrap() {
        core::net::IpAddr::V4(a) => IpAddr::V4(Ipv4Addr { bits: a.into() }),
        core::net::IpAddr::V6(a) => IpAddr::V6(Ipv6Addr { bits: a.into() }),
    }
}

fn addr(s: &str) -> SocketAddr {
    let a: core::net::SocketAddr = s.parse().unwrap();
    SocketAddr::new(ip(&a.ip().to_string()), a.port())
}

fn cand(seq: u32, at: &str, kind: CandidateKind) -> Candidate {
    Candidate {
        seq,
        addr: addr(at),
        kind,
    }
}

#[test]
fn identities_wipe_their_key() {
    let id = Identity::generate().unwrap();
    let mut pem = id.to_pem();
    assert!(pem.as_str().contains("PRIVATE KEY"));
    pem.wipe();
    assert_eq!(pem.as_str(), "");
    // The identity has its own copy.
    assert!(id.to_pem().as_str().contains("PRIVATE KEY"));
    let again = Identity::from_generated(Ok(id.to_pem().as_str().to_string())).unwrap();
    assert_eq!(again.pin(), id.pin());
    assert!(matches!(
        Identity::from_generated(Err("no entropy".to_string())).err().unwrap(),
        ProxyError::Tls(t) if t == "identity keygen failed: no entropy"
    ));
    assert!(matches!(
        Identity::from_pem("not a key").err().unwrap(),
        ProxyError::Tls(t) if t.starts_with("invalid identity: ")
    ));
    assert_eq!(pin_from(&[7; 32]), [7u8; 32]);
}

#[test]
fn strategies_parse_in_any_case_and_name_what_they_refuse() {
    assert_eq!(
        PunchStrategy::parse("  RelayAssisted\n"),
        Ok(PunchStrategy::RelayAssisted)
    );
    assert_eq!(
        PunchStrategy::parse("x\"y"),
        Err("unknown punch strategy \"x\\\"y\" (basic|predict|birthday|relay-assisted)".to_string())
    );
    assert_eq!(DirectMode::parse("NONE"), Ok(DirectMode::Off));
    assert_eq!(
        DirectMode::parse(" Y "),
        Err("unknown direct mode \"y\" (reflexive|full|off)".to_string())
    );
    let c = PunchConfig::default();
    assert_eq!(c.strategy, PunchStrategy::Basic);
    assert!(!c.port_map);
}

#[test]
fn candidates_are_numbered_in_priority_order() {
    assert!(CandidateKind::Host < CandidateKind::Reflexive);
    assert!(CandidateKind::Reflexive < CandidateKind::Relay);
    let set = gather(&Sources {
        host: vec![addr("10.0.0.1:1"), addr("10.0.0.1:1"), addr("10.0.0.2:1")],
        reflexive: Some(addr("198.51.100.5:9")),
        relay: addr("198.51.100.5:9"),
    });
    assert_eq!(set.len(), 3);
    for (i, c) in set.iter().enumerate() {
        assert_eq!(c.seq as usize, i);
        if i > 0 {
            assert!(set[i - 1].kind.priority() >= c.kind.priority());
        }
    }
    assert_eq!(set[2].kind, CandidateKind::Reflexive);
}

#[test]
fn pairs_are_ranked_and_keep_their_order_when_equal() {
    let local = [
        cand(1, "10.0.0.1:1", CandidateKind::Relay),
        cand(2, "10.0.0.2:1", CandidateKind::Host),
    ];
    let remote = [
        cand(7, "10.0.1.1:1", CandidateKind::Reflexive),
        cand(8, "10.0.1.2:1", CandidateKind::Reflexive),
        cand(9, "10.0.1.3:1", CandidateKind::Relay),
    ];
    let pairs: Vec<(u32, u32)> = pair_candidates(&local, &remote)
        .iter()
        .map(|p| (p.0, p.1))
        .collect();
    assert_eq!(pairs, vec![(2, 7), (2, 8), (2, 9), (1, 7)]);
}

#[test]
fn a_stream_of_messages_splits_into_them() {
    let mut stream = Vec::new();
    for body in [&b""[..], &b"abc"[..], &[0u8; 300][..]] {
        stream.extend_from_slice(&frame_message(body));
    }
    stream.extend_from_slice(&[0, 9, 1]);
    let parts = split_messages(&stream);
    assert_eq!(parts, vec![b"".to_vec(), b"abc".to_vec(), vec![0u8; 300]]);
}

#[test]
fn the_exchange_yields_targets_without_the_relay() {
    let msgs = vec![
        Ok(Control::Candidate(cand(0, "10.0.0.1:1", CandidateKind::Host))),
        Ok(Control::Retire { seq: 4 }),
        Ok(Control::Candidate(cand(1, "10.0.0.1:1", CandidateKind::Reflexive))),
        Ok(Control::Candidate(cand(2, "10.0.0.9:1", CandidateKind::Relay))),
    ];
    let remote = remote_candidates(&msgs).unwrap();
    assert_eq!(remote.len(), 3);
    assert_eq!(punch_targets(&remote).unwrap(), vec![addr("10.0.0.1:1")]);
    assert_eq!(
        punch_targets(&remote[2..]).unwrap_err().message(),
        "QUIC error: peer offered no punchable candidates"
    );
    let bad = vec![Err(WireError::BadCbor)];
    assert_eq!(
        remote_candidates(&bad).unwrap_err().message(),
        "invalid CONNECT-IP request: malformed candidate"
    );
    // A wildcard socket is no host candidate; a concrete one is.
    let relay = addr("198.51.100.5:9");
    assert_eq!(local_candidates(addr("0.0.0.0:5"), None, relay).len(), 1);
    assert_eq!(local_candidates(addr("10.0.0.7:5"), None, relay).len(), 2);
}

#[test]
fn both_peers_keep_the_same_connection() {
    let low = [1u8; 32];
    let high = [2u8; 32];
    let dialed = Probe {
        role: Role::Client,
        presented: None,
    };
    let accepted = Probe {
        role: Role::Server,
        presented: None,
    };
    // The lower-pinned peer keeps what it dialed, the other what it accepted.
    assert_eq!(pick(&[accepted, dialed], low, Some(high)), 1);
    assert_eq!(pick(&[dialed, accepted], high, Some(low)), 1);
    // A lone success is kept regardless of role.
    assert_eq!(pick(&[accepted], low, Some(high)), 0);
    // The pin may come from the connection itself; without one, the dialed.
    let shown = Probe {
        role: Role::Client,
        presented: Some(high),
    };
    assert_eq!(pick(&[accepted, shown], low, None), 1);
    assert_eq!(pick(&[accepted, dialed], low, None), 1);
}

#[test]
fn the_race_waits_for_a_duplicate_and_gives_up_in_time() {
    let mut race = Race::new([1; 32], Some([2; 32]));
    assert!(matches!(
        race.on(RaceEvent::Grace),
        RaceStep::Wait { grace: false }
    ));
    let probe = Probe {
        role: Role::Server,
        presented: None,
    };
    assert!(matches!(
        race.on(RaceEvent::Completed(probe)),
        RaceStep::Wait { grace: true }
    ));
    assert!(matches!(
        race.on(RaceEvent::Deadline),
        RaceStep::Wait { grace: true }
    ));
    assert!(matches!(race.on(RaceEvent::Grace), RaceStep::Keep(0)));
    let mut empty = Race::new([1; 32], None);
    match empty.on(RaceEvent::Deadline) {
        RaceStep::Fail(e) => assert_eq!(e.message(), "QUIC error: hole punch timed out"),
        _ => panic!("expected failure"),
    }
    match empty.on(RaceEvent::Exhausted) {
        RaceStep::Fail(e) => assert_eq!(e.message(), "QUIC error: all punch attempts failed"),
        _ => panic!("expected failure"),
    }
}

#[test]
fn native_candidates_put_the_forward_first() {
    let mux = PathMuxHandle {
        direct_local: addr("0.0.0.0:4000"),
    };
    assert_eq!(mux.direct_local().port, 4000);
    assert_eq!(
        candidates(&mux, Some(ip("198.51.100.7")), Some(addr("203.0.113.1:99"))),
        vec![addr("203.0.113.1:99"), addr("198.51.100.7:4000")]
    );
    assert_eq!(
        candidates(
            &mux,
            Some(ip("198.51.100.7")),
            Some(addr("198.51.100.7:4000"))
        )
        .len(),
        1
    );
    assert!(candidates(&mux, None, None).is_empty());
}

#[test]
fn the_round_driver_waits_for_an_address() {
    let mut d = RoundDriver::new();
    d.on(RoundEvent::Started);
    assert_eq!(d.step, RoundStep::Look);
    d.on(RoundEvent::Known(false));
    assert_eq!(d.step, RoundStep::AwaitUpdate);
    d.on(RoundEvent::Updated);
    d.on(RoundEvent::Known(true));
    assert_eq!(d.step, RoundStep::Initiate);
    d.on(RoundEvent::Started);
    d.on(RoundEvent::Elapsed);
    assert_eq!(d.step, RoundStep::Initiate);
    d.on(RoundEvent::Refused);
    assert_eq!(d.step, RoundStep::Idle);
    d.on(RoundEvent::Known(true));
    assert_eq!(d.step, RoundStep::Idle);
    let mut alone = RoundDriver::new();
    alone.on(RoundEvent::Known(false));
    alone.on(RoundEvent::GaveUp);
    assert_eq!(alone.step, RoundStep::Idle);
}

#[test]
fn only_a_direct_path_ends_the_punch() {
    assert!(path_outcome(PathNotice::Established(0)).is_none());
    assert!(path_outcome(PathNotice::Lagged).is_none());
    assert!(path_outcome(PathNotice::Other).is_none());
    assert!(matches!(
        path_outcome(PathNotice::Established(3)),
        Some(Ok(3))
    ));
    for (notice, text) in [
        (PathNotice::Ended, "QUIC error: path event stream ended"),
        (PathNotice::TimedOut, "QUIC error: hole punch timed out"),
    ] {
        assert_eq!(
            path_outcome(notice).unwrap().unwrap_err().message(),
            text
        );
    }
    assert_eq!(PathState::initial(), PathState::Relay);
    assert!(PathState::Punching.keeps_waiting(false));
    assert!(!PathState::Punching.keeps_waiting(true));
    assert!(PathState::Direct.direct_reached(true));
    assert!(!PathState::Direct.direct_reached(false));
    assert!(!PathState::Relay.direct_reached(true));
}

fn token() -> TokenV2 {
    TokenV2::issue(
        relay_url(addr("198.51.100.5:443")),
        [1; 32],
        "credential".to_string(),
        [2; 32],
        vec!["192.0.2.45:54321".to_string()],
        1_000,
        60,
    )
}

#[test]
fn tokens_are_issued_for_a_lifetime() {
    let t = token();
    assert_eq!(t.relay, "h3://198.51.100.5:443");
    assert_eq!(t.exp, 1_060);
    assert!(check_fresh(&t, 1_059).is_ok());
    assert_eq!(
        check_fresh(&t, 1_060).unwrap_err().message(),
        "invalid CONNECT-IP request: token has expired"
    );
    assert_eq!(issuer_addr(&t).unwrap(), addr("192.0.2.45:54321"));
    let mut none = token();
    none.paddr.clear();
    assert_eq!(
        issuer_addr(&none).unwrap_err().message(),
        "invalid CONNECT-IP request: token carries no paddr"
    );
    let mut bad = token();
    bad.paddr = vec!["nowhere".to_string()];
    assert_eq!(
        issuer_addr(&bad).unwrap_err().message(),
        "invalid CONNECT-IP request: token paddr invalid: invalid socket address syntax"
    );
    let mut v6 = token();
    v6.paddr = vec!["[2001:db8::1]:7".to_string()];
    assert_eq!(issuer_addr(&v6).unwrap(), addr("[2001:db8::1]:7"));

    // A link-local address keeps its scope, in and out.
    let mut scoped = token();
    scoped.paddr = vec!["[fe80::1%3]:443".to_string()];
    let found = issuer_addr(&scoped).unwrap();
    assert_eq!(found.scope_id, 3);
    assert_ne!(found, addr("[fe80::1]:443"));
    assert_eq!(relay_url(found), "h3://[fe80::1%3]:443");
    assert_eq!(relay_url(addr("[fe80::1]:443")), "h3://[fe80::1]:443");
}

#[test]
fn token_frames_come_off_as_they_were_put_on() {
    let cbor = [0xa1u8, 0x61, 0x31, 0x02, 0xff, 0xfe];
    let text = TokenV2::encode(&cbor);
    assert_eq!(text, "sc2_oWExAv_-");
    assert!(text.starts_with(TOKEN_PREFIX));
    assert_eq!(TokenV2::unframe(&text).unwrap(), cbor);
    assert_eq!(
        TokenV2::unframe("sc1_oWEx").unwrap_err().message(),
        "invalid CONNECT-IP request: token must start with sc2_"
    );
    assert!(TokenV2::unframe("sc2_!")
        .unwrap_err()
        .message()
        .starts_with("invalid CONNECT-IP request: token is not valid base64url: "));
    // What is shown does not depend on the credential.
    let mut other = token();
    other.auth = "another".to_string();
    assert_eq!(token().to_debug(), other.to_debug());
    assert_eq!(ALPN_STRAWCAT, "strawcat/1");
    assert_eq!(NAT_TRAVERSAL_FRAME_BASE, 0x3d7e90);
}

#[test]
fn context_errors_name_the_context() {
    let mut t = ContextTable::new();
    let peer = addr("198.51.100.7:443");
    let assign = CompressionAssign {
        context_id: 4,
        binding: Binding::Compressed(peer),
    };
    t.register(assign).unwrap();
    assert_eq!(
        t.register(assign).unwrap_err().message(),
        "context 4 is already registered"
    );
    assert_eq!(
        t.register(CompressionAssign {
            context_id: u64::MAX,
            binding: Binding::Uncompressed,
        })
        .unwrap_err(),
        ContextError::OutOfRange(u64::MAX)
    );
    assert_eq!(
        ContextError::OutOfRange(9).message(),
        "context 9 is out of range"
    );
    assert_eq!(
        t.ack(6).unwrap_err().message(),
        "context 6 is not registered"
    );
    // Not usable before it is acknowledged.
    assert_eq!(t.binding(4), None);
    assert_eq!(
        t.encode_datagram(4, peer, b"x").unwrap_err(),
        ContextError::Unknown(4)
    );
    t.ack(4).unwrap();
    assert_eq!(t.binding(4), Some(Binding::Compressed(peer)));
    assert_eq!(
        t.encode_datagram(4, addr("10.0.0.1:1"), b"x")
            .unwrap_err()
            .message(),
        "context 4 is bound to another address"
    );
    assert_eq!(&t.encode_datagram(4, peer, b"x").unwrap()[..], &[4, b'x']);
    t.close(4);
    assert_eq!(t.compressed_context_for(peer), None);
}

#[test]
fn context_capsules_have_this_form() {
    let mut buf = BytesMut::new();
    CompressionAssign {
        context_id: 4,
        binding: Binding::Compressed(addr("198.51.100.7:443")),
    }
    .encode(&mut buf);
    assert_eq!(
        &buf[..],
        &[0x11, 8, 4, 4, 198, 51, 100, 7, 0x01, 0xbb]
    );
    let mut buf = BytesMut::new();
    CompressionAssign {
        context_id: 2,
        binding: Binding::Uncompressed,
    }
    .encode(&mut buf);
    assert_eq!(&buf[..], &[0x11, 2, 2, 0]);
    let mut buf = BytesMut::new();
    encode_context_capsule(0x13, 2, &mut buf);
    assert_eq!(&buf[..], &[0x13, 1, 2]);
}

fn open_table() -> ContextTable {
    let mut t = ContextTable::new();
    t.register(CompressionAssign {
        context_id: 2,
        binding: Binding::Uncompressed,
    })
    .unwrap();
    t.ack(2).unwrap();
    t
}

#[test]
fn the_lockdown_closes_only_what_the_relay_has_replaced() {
    let peer = addr("198.51.100.7:443");
    let other = addr("203.0.113.9:443");
    let mut t = open_table();
    let (lockdown, step) = RelayLockdown::engage(Some(peer), &mut t).unwrap();
    let mut lockdown = lockdown.unwrap();
    match step {
        LockdownStep::Queue(b) => assert_eq!(b[0], 0x11),
        _ => panic!("expected a capsule"),
    }
    assert!(frame_bind(4, &t, other, b"x").is_some());
    assert!(matches!(
        lockdown.on(&mut t, LockdownEvent::Queued).unwrap(),
        LockdownStep::AwaitAck
    ));
    // An acknowledgement of something else changes nothing.
    assert!(matches!(
        lockdown.on(&mut t, LockdownEvent::Acked).unwrap(),
        LockdownStep::AwaitAck
    ));
    t.ack(4).unwrap();
    match lockdown.on(&mut t, LockdownEvent::Acked).unwrap() {
        LockdownStep::Queue(b) => assert_eq!(&b[..], &[0x13, 1, 2]),
        _ => panic!("expected a capsule"),
    }
    assert!(frame_bind(4, &t, other, b"x").is_some());
    assert!(matches!(
        lockdown.on(&mut t, LockdownEvent::Queued).unwrap(),
        LockdownStep::Engaged(p) if p == peer
    ));
    assert!(frame_bind(4, &t, peer, b"x").is_some());
    assert!(frame_bind(4, &t, other, b"x").is_none());
    // A second time there is nothing to do.
    assert!(matches!(
        RelayLockdown::engage(Some(peer), &mut t).unwrap(),
        (None, LockdownStep::Engaged(_))
    ));
    assert_eq!(
        RelayLockdown::engage(Some(other), &mut t)
            .unwrap_err()
            .message(),
        "invalid CONNECT-IP request: uncompressed context already closed"
    );
}

#[test]
fn a_lockdown_that_fails_leaves_the_relay_path_open() {
    let peer = addr("198.51.100.7:443");
    let mut t = open_table();
    assert_eq!(
        RelayLockdown::engage(None, &mut t).unwrap_err().message(),
        "invalid CONNECT-IP request: no relay remote learned; nothing to bind a context to"
    );
    let (lockdown, _) = RelayLockdown::engage(Some(peer), &mut t).unwrap();
    let mut lockdown = lockdown.unwrap();
    // The context is in use already.
    assert_eq!(
        RelayLockdown::engage(Some(peer), &mut t)
            .unwrap_err()
            .message(),
        "invalid CONNECT-IP request: context 4 is already registered"
    );
    lockdown.on(&mut t, LockdownEvent::Queued).unwrap();
    assert_eq!(
        lockdown
            .on(&mut t, LockdownEvent::TimedOut)
            .unwrap_err()
            .message(),
        "invalid CONNECT-IP request: relay did not acknowledge the compressed context"
    );
    assert!(frame_bind(4, &t, peer, b"x").is_some());
    let (lockdown, _) = RelayLockdown::engage(Some(peer), &mut t).unwrap();
    assert_eq!(
        lockdown
            .unwrap()
            .on(&mut t, LockdownEvent::QueueFailed("full".to_string()))
            .unwrap_err()
            .message(),
        "invalid CONNECT-IP request: capsule queue: full"
    );
}

#[test]
fn packets_are_routed_by_destination() {
    let peer = addr("198.51.100.7:443");
    let t = open_table();
    let routes = RelayRoutes::new(Some(peer));
    match route_packet(&routes, 4, &t, peer, b"hi") {
        Outgoing::Tunnel(b) => {
            assert_eq!(&b[..], &[4, 2, 4, 198, 51, 100, 7, 0x01, 0xbb, b'h', b'i'])
        }
        _ => panic!("expected the tunnel"),
    }
    assert!(matches!(
        route_packet(&routes, 4, &t, addr("10.0.0.1:1"), b"hi"),
        Outgoing::Direct
    ));
    assert!(matches!(
        route_packet(&routes, 4, &ContextTable::new(), peer, b"hi"),
        Outgoing::Dropped
    ));
    assert_eq!(polled(2, DrainEnd::Closed), Polled::Ready(2));
    assert_eq!(polled(0, DrainEnd::Closed), Polled::Broken);
    assert_eq!(polled(0, DrainEnd::Pending), Polled::Pending);
    assert_eq!(polled(0, DrainEnd::Full), Polled::Ready(0));
}

#[test]
fn stun_classifies_by_three_tests() {
    let local = addr("192.168.1.2:5000");
    let a = addr("203.0.113.9:50000");
    let b = addr("203.0.113.9:50001");
    let primary = addr("198.51.100.1:3478");
    let other = addr("198.51.100.2:3479");
    assert!(matches!(
        Detection::First.answered(local, local, None).unwrap(),
        Progress::Found(NatMapping::Open)
    ));
    assert_eq!(
        Detection::First
            .answered(local, a, None)
            .unwrap_err()
            .message(),
        "QUIC error: STUN server does not support RFC 5780 (no OTHER-ADDRESS)"
    );
    let second = Detection::Second { mapped: a, other };
    assert_eq!(second.target(primary), other);
    assert!(matches!(
        second.answered(local, a, None).unwrap(),
        Progress::Found(NatMapping::EndpointIndependent)
    ));
    let third = Detection::Third {
        mapped: a,
        other_port: 3479,
    };
    assert_eq!(third.target(primary), addr("198.51.100.1:3479"));
    assert!(matches!(
        third.answered(local, a, None).unwrap(),
        Progress::Found(NatMapping::AddressDependent)
    ));
    assert!(matches!(
        third.answered(local, b, None).unwrap(),
        Progress::Found(NatMapping::AddressAndPortDependent)
    ));
}

#[test]
fn stun_messages_round_trip() {
    let txid = new_txid();
    assert_eq!(
        parse_binding_request(&encode_binding_request(&txid)),
        Some(txid)
    );
    let from = addr("203.0.113.9:50000");
    let other = addr("198.51.100.2:3479");
    let reply = answer(&encode_binding_request(&txid), from, other).unwrap();
    assert_eq!(
        parse_binding_response(&reply, &txid).unwrap(),
        (from, Some(other))
    );
    let plain = encode_binding_response(&txid, from, None);
    assert_eq!(
        parse_binding_response(&plain, &txid).unwrap(),
        (from, None)
    );
    assert!(answer(b"not stun", from, other).is_none());
    let v = listeners(addr("198.51.100.1:3478"), addr("198.51.100.2:3479"));
    assert_eq!(v.len(), 4);
    assert_eq!(v[1], (addr("198.51.100.1:3479"), addr("198.51.100.2:3478")));
}

#[test]
fn a_random_nat_predicts_nothing() {
    let at = |p: u16| SocketAddr::new(ip("203.0.113.7"), p);
    let seq = predicted_candidates(&[at(100), at(102), at(104)]);
    assert!(seq.contains(&at(106)));
    assert!(predicted_candidates(&[at(100), at(900), at(17)]).is_empty());
}

#[test]
fn a_port_mapping_falls_back_to_nat_pmp() {
    let req = MapRequest {
        client_ip: Ipv4Addr::new(10, 0, 0, 2),
        internal_port: 41000,
        lifetime: 3600,
    };
    let nonce = rand_nonce();
    assert_eq!(Attempt::Pcp.request(&req, &nonce).len(), 60);
    let next = Attempt::Pcp
        .answered(Err(ProxyError::Quic("no answer".to_string())), &nonce)
        .unwrap();
    assert_eq!(next, Answer::Ask(Attempt::External));
    let mut resp = vec![0u8; 12];
    resp[1] = 128;
    resp[8..12].copy_from_slice(&[198, 51, 100, 7]);
    let next = Attempt::External.answered(Ok(resp), &nonce).unwrap();
    let external = Ipv4Addr::new(198, 51, 100, 7);
    assert_eq!(next, Answer::Ask(Attempt::Forward { external }));
    let mut resp = vec![0u8; 16];
    resp[1] = 129;
    resp[10..12].copy_from_slice(&50000u16.to_be_bytes());
    resp[12..16].copy_from_slice(&3600u32.to_be_bytes());
    assert_eq!(
        Attempt::Forward { external }
            .answered(Ok(resp), &nonce)
            .unwrap(),
        Answer::Mapped(Mapping {
            external: addr("198.51.100.7:50000"),
            lifetime: 3600
        })
    );
    assert!(Attempt::External.answered(Ok(vec![0]), &nonce).is_err());
}

#[test]
fn the_vpn_server_is_a_single_tunnel_proxy() {
    let subnet = Ipv4Net::new(Ipv4Addr::new(10, 77, 0, 0), 24).unwrap();
    let ctx = build_context(subnet, "vpn0".to_string(), 1200).unwrap();
    assert_eq!(ctx.config.tun_name, "vpn0");
    assert_eq!(ctx.config.mtu, 1200);
    assert!(ctx.config.tun);
    assert_eq!(
        ctx.pool.ipv4_gateway(),
        (Ipv4Addr::new(10, 77, 0, 1), 24)
    );
    assert_eq!(client_mtu(Some(1300), None).unwrap(), 1300);
    assert_eq!(client_mtu(None, Some(1180)).unwrap(), 1180);
    for max in [None, Some(70_000)] {
        assert_eq!(
            client_mtu(None, max).unwrap_err().message(),
            "configuration error: peer did not enable QUIC DATAGRAMs; cannot size the tunnel"
        );
    }
}

#[test]
fn the_daemon_authenticates_with_what_it_is_given() {
    assert!(matches!(
        client_auth(None, None).unwrap(),
        ClientAuth::NoAuth
    ));
    assert!(matches!(
        client_auth(Some("t".to_string()), Some("a:b")).unwrap(),
        ClientAuth::Bearer(t) if t == "t"
    ));
    match client_auth(None, Some("alice:won:der")).unwrap() {
        ClientAuth::Basic { user, password } => {
            assert_eq!((user.as_str(), password.as_str()), ("alice", "won:der"))
        }
        _ => panic!("expected basic credentials"),
    }
    assert_eq!(
        client_auth(None, Some("alice")).unwrap_err().message(),
        "configuration error: --basic expects user:password"
    );
    assert!(matches!(
        trust(true, None, "say so").unwrap(),
        Trust::Insecure
    ));
    assert!(matches!(
        trust(false, Some("ca.pem".to_string()), "say so").unwrap(),
        Trust::Ca(p) if p == "ca.pem"
    ));
    assert_eq!(
        trust(false, None, "say so").unwrap_err().message(),
        "configuration error: say so"
    );
}

#[test]
fn the_tunnel_mtu_only_grows() {
    assert_eq!(tunnel_mtu(Some(1111), None).unwrap(), 1111);
    assert_eq!(tunnel_mtu(None, Some(1200)).unwrap(), 1200);
    assert_eq!(tunnel_mtu(None, Some(100_000)).unwrap(), u16::MAX);
    assert!(tunnel_mtu(None, None).is_err());
    assert!(below_ipv6_minimum(1279) && !below_ipv6_minimum(1280));
    assert_eq!(raised_mtu(1200, Some(1215)), None);
    assert_eq!(raised_mtu(1200, Some(1216)), Some(1216));
    assert_eq!(raised_mtu(1200, None), None);

    let mut d = Daemon::new(1200, None);
    assert_eq!(
        d.on(DaemonEvent::Sampled(Some(1400))),
        DaemonStep::SetMtu(1400)
    );
    assert_eq!(
        d.on(DaemonEvent::MtuSet {
            mtu: 1400,
            taken: true
        }),
        DaemonStep::Wait
    );
    assert_eq!(d.on(DaemonEvent::Sampled(Some(1400))), DaemonStep::Wait);
    let mut pinned = Daemon::new(1200, Some(1200));
    assert_eq!(
        pinned.on(DaemonEvent::Sampled(Some(1400))),
        DaemonStep::Wait
    );
    assert_eq!(
        pinned.on(DaemonEvent::Capsules(vec![Capsule::AddressAssign(
            AddressAssign {
                assigned_addresses: Vec::new()
            }
        )])),
        DaemonStep::Reconfigure
    );
    assert_eq!(
        pinned.on(DaemonEvent::Capsules(Vec::new())),
        DaemonStep::Wait
    );
    assert_eq!(pinned.on(DaemonEvent::Terminate), DaemonStep::Stop);
    assert_eq!(pinned.on(DaemonEvent::Closed), DaemonStep::Stop);
}

#[test]
fn the_daemon_reports_what_the_tunnel_gave() {
    let mut client = TunnelClient::new(0);
    client.assigned = vec![AssignedAddress {
        request_id: 0,
        ip_version: 4,
        ip_address: ip("10.100.0.2"),
        prefix_length: 32,
    }];
    client.routes = vec![
        IpAddressRange {
            ip_version: 4,
            start_ip: ip("10.0.0.0"),
            end_ip: ip("10.255.255.255"),
            ip_protocol: 0,
        },
        IpAddressRange {
            ip_version: 6,
            start_ip: ip("fd00::"),
            end_ip: ip("fd00::ffff"),
            ip_protocol: 17,
        },
    ];
    assert_eq!(
        report(&client, "tun0"),
        vec![
            "tun0: 10.100.0.2/32",
            "tun0: route 10.0.0.0 - 10.255.255.255 proto any",
            "tun0: route fd00:: - fd00::ffff proto 17",
        ]
    );
    assert_eq!(pin_for(addr("127.0.0.1:443")), None);
    assert_eq!(pin_for(addr("[::1]:443")), None);
    assert_eq!(
        pin_for(addr("203.0.113.9:443")),
        Some(ip("203.0.113.9"))
    );
    assert_eq!(or_epoch(None), 0);
    assert_eq!(or_epoch(Some(5)), 5);
    assert!(straw::clock::now() > 1_600_000_000);
}

#[test]
fn exchanges_are_retried_and_given_up() {
    let txid = [7u8; 12];
    let mapped = addr("203.0.113.5:4000");
    let response = encode_binding_response(&txid, mapped, None);
    assert_eq!(
        binding_step(0, Reply::Datagram(response.clone()), &txid).unwrap(),
        BindingStep::Done { mapped, other: None }
    );
    assert!(binding_step(2, Reply::Datagram(response), &[8u8; 12]).is_err());
    assert_eq!(
        binding_step(2, Reply::TimedOut, &txid).unwrap(),
        BindingStep::Resend { left: 1 }
    );
    assert!(matches!(
        binding_step(0, Reply::TimedOut, &txid),
        Err(ProxyError::Quic(t)) if t == "STUN server did not respond"
    ));
    assert!(matches!(
        binding_step(2, Reply::Failed(ProxyError::Io("down".to_string())), &txid),
        Err(ProxyError::Io(t)) if t == "down"
    ));

    assert!(matches!(
        exchange_step(0, Reply::Datagram(vec![1, 2])),
        Ok(ExchangeStep::Done(b)) if b == [1, 2]
    ));
    assert!(matches!(
        exchange_step(1, Reply::TimedOut),
        Ok(ExchangeStep::Resend { left: 0 })
    ));
    assert!(matches!(
        exchange_step(0, Reply::TimedOut),
        Err(ProxyError::Quic(t)) if t == "port-mapping server did not respond"
    ));
    assert!(matches!(
        exchange_step(1, Reply::Failed(ProxyError::Io("down".to_string()))),
        Err(ProxyError::Io(t)) if t == "down"
    ));
}
