//! The forwarding engine's verdicts.

use straw::capsule::{AssignedAddress, IpAddressRange};
use straw::error::ForwardingError;
use straw::forwarding::checksum::ipv4_checksum;
use straw::forwarding::icmp::IcmpSource;
use straw::forwarding::limiter::RateLimits;
use straw::forwarding::packet::{build_ipv4_icmp_echo, parse_packet};
use straw::forwarding::{conclude, EgressPolicy, Forwarded, ForwardingEngine, Sent, Verdict};
use straw::net::{IpAddr, IpNet, Ipv4Addr, Ipv6Addr};
use straw::session::SessionId;

fn ip(s: &str) -> IpAddr {
    match s.parse().unwrap() {
        core::net::IpAddr::V4(a) => IpAddr::V4(Ipv4Addr { bits: a.into() }),
        core::net::IpAddr::V6(a) => IpAddr::V6(Ipv6Addr { bits: a.into() }),
    }
}

fn v4(s: &str) -> Ipv4Addr {
    match ip(s) {
        IpAddr::V4(a) => a,
        IpAddr::V6(_) => panic!("not an IPv4 address"),
    }
}

fn net(s: &str) -> IpNet {
    let (a, len) = s.split_once('/').unwrap();
    IpNet::new(ip(a), len.parse().unwrap()).unwrap()
}

fn assigned(addr: Ipv4Addr) -> Vec<AssignedAddress> {
    vec![AssignedAddress {
        request_id: 0,
        ip_version: 4,
        ip_address: IpAddr::V4(addr),
        prefix_length: 32,
    }]
}

fn allow_all_policy() -> EgressPolicy {
    EgressPolicy::new(vec![
        IpAddressRange::from_net(net("0.0.0.0/0"), 0),
        IpAddressRange::from_net(net("::/0"), 0),
    ])
}

fn test_icmp_source() -> IcmpSource {
    IcmpSource {
        v4: v4("10.100.0.1"),
        v6: match ip("fd00::1") {
            IpAddr::V6(a) => Some(a),
            IpAddr::V4(_) => None,
        },
    }
}

fn engine_no_tun(mtu: u16) -> ForwardingEngine {
    engine_with_limits(mtu, RateLimits::default())
}

fn engine_with_limits(mtu: u16, limits: RateLimits) -> ForwardingEngine {
    ForwardingEngine::new(false, mtu, test_icmp_source(), limits)
}

/// The verdict's outcome when every packet is taken.
fn outcome(v: &Verdict) -> Result<Forwarded, ForwardingError> {
    conclude(v, Sent::Taken)
}

fn reply(v: &Verdict) -> Option<Vec<u8>> {
    match v {
        Verdict::Refuse { reply, .. } => reply.clone(),
        _ => None,
    }
}

#[test]
fn hairpin_between_sessions() {
    let mut engine = engine_no_tun(1400);
    let a = SessionId(0);
    let b = SessionId(4);
    let addr_a = v4("10.100.0.2");
    let addr_b = v4("10.100.0.3");
    engine.register_session(a, allow_all_policy(), usize::MAX);
    engine.register_session(b, allow_all_policy(), usize::MAX);
    engine.insert_client_addr(IpAddr::V4(addr_a), a);
    engine.insert_client_addr(IpAddr::V4(addr_b), b);

    let ping = build_ipv4_icmp_echo(addr_a, addr_b, false, 1, 1, b"hi", 64);
    let v = engine.forward_from_client(a, &assigned(addr_a), &ping);
    assert_eq!(outcome(&v).unwrap(), Forwarded::Hairpin(b));
    match v {
        Verdict::Deliver { session, packet } => {
            assert_eq!(session, b);
            assert_eq!(packet[8], 63, "TTL decremented by the proxy hop");
            let info = parse_packet(&packet).unwrap();
            assert_eq!(info.dst, IpAddr::V4(addr_b));
        }
        _ => panic!("expected a delivery"),
    }
}

#[test]
fn source_spoofing_rejected_silently() {
    let mut engine = engine_no_tun(1400);
    let a = SessionId(0);
    let addr_a = v4("10.100.0.2");
    engine.register_session(a, allow_all_policy(), usize::MAX);
    engine.insert_client_addr(IpAddr::V4(addr_a), a);

    // Session A claims a source address it was never assigned.
    let spoofed =
        build_ipv4_icmp_echo(v4("10.100.0.99"), v4("192.0.2.1"), false, 1, 1, b"", 64);
    let v = engine.forward_from_client(a, &assigned(addr_a), &spoofed);
    assert!(matches!(
        outcome(&v).unwrap_err(),
        ForwardingError::SourceAddressViolation(_)
    ));
    // No ICMP for spoofers (BCP 38).
    assert!(reply(&v).is_none());
}

#[test]
fn no_route_generates_destination_unreachable() {
    let mut engine = engine_no_tun(1400);
    let a = SessionId(0);
    let addr_a = v4("10.100.0.2");
    engine.register_session(a, allow_all_policy(), usize::MAX);

    let pkt = build_ipv4_icmp_echo(addr_a, v4("192.0.2.1"), false, 1, 1, b"", 64);
    let v = engine.forward_from_client(a, &assigned(addr_a), &pkt);
    assert!(matches!(outcome(&v).unwrap_err(), ForwardingError::NoRoute));

    let icmp_reply = reply(&v).unwrap();
    assert_eq!(icmp_reply[9], 1, "ICMP");
    assert_eq!(icmp_reply[20], 3, "Destination Unreachable");
    assert_eq!(icmp_reply[21], 0, "net unreachable");
    let info = parse_packet(&icmp_reply).unwrap();
    assert_eq!(info.src, ip("10.100.0.1"));
    assert_eq!(info.dst, IpAddr::V4(addr_a));
}

#[test]
fn policy_violation_generates_admin_prohibited() {
    let mut engine = engine_no_tun(1400);
    let a = SessionId(0);
    let addr_a = v4("10.100.0.2");
    // Split tunnel: only 192.0.2.0/24 is advertised.
    let policy = EgressPolicy::new(vec![IpAddressRange::from_net(net("192.0.2.0/24"), 0)]);
    engine.register_session(a, policy, usize::MAX);

    let pkt = build_ipv4_icmp_echo(addr_a, v4("198.51.100.9"), false, 1, 1, b"", 64);
    let v = engine.forward_from_client(a, &assigned(addr_a), &pkt);
    assert!(matches!(
        outcome(&v).unwrap_err(),
        ForwardingError::NotAllowed(_)
    ));

    let icmp_reply = reply(&v).unwrap();
    assert_eq!(icmp_reply[20], 3, "Destination Unreachable");
    assert_eq!(icmp_reply[21], 13, "administratively prohibited");
}

#[test]
fn ttl_expiry_generates_time_exceeded() {
    let mut engine = engine_no_tun(1400);
    let a = SessionId(0);
    let addr_a = v4("10.100.0.2");
    engine.register_session(a, allow_all_policy(), usize::MAX);
    engine.insert_client_addr(IpAddr::V4(addr_a), a);

    let pkt = build_ipv4_icmp_echo(addr_a, addr_a, false, 1, 1, b"", 1);
    let v = engine.forward_from_client(a, &assigned(addr_a), &pkt);
    assert!(matches!(
        outcome(&v).unwrap_err(),
        ForwardingError::TtlExpired
    ));

    let icmp_reply = reply(&v).unwrap();
    assert_eq!(icmp_reply[20], 11, "Time Exceeded");
    // The quoted original still carries TTL 1 (pre-decrement).
    assert_eq!(icmp_reply[28 + 8], 1);
}

#[test]
fn rate_limit_drops_excess_packets() {
    let mut engine = engine_with_limits(
        1400,
        RateLimits {
            packets_per_sec: 2,
            bytes_per_sec: 0,
        },
    );
    let a = SessionId(0);
    let addr_a = v4("10.100.0.2");
    engine.register_session(a, allow_all_policy(), usize::MAX);
    engine.insert_client_addr(IpAddr::V4(addr_a), a);

    let ping = build_ipv4_icmp_echo(addr_a, addr_a, false, 1, 1, b"x", 64);
    let first = engine.forward_from_client(a, &assigned(addr_a), &ping);
    assert!(outcome(&first).is_ok());
    let second = engine.forward_from_client(a, &assigned(addr_a), &ping);
    assert!(outcome(&second).is_ok());
    let v = engine.forward_from_client(a, &assigned(addr_a), &ping);
    assert!(matches!(
        outcome(&v).unwrap_err(),
        ForwardingError::RateLimited
    ));
    // Silent drop: no ICMP either.
    assert!(reply(&v).is_none());
}

/// Rewrite an ICMP echo into the given IP protocol (fixing the header
/// checksum) to fake other transports in tests.
fn with_proto(mut pkt: Vec<u8>, proto: u8) -> Vec<u8> {
    pkt[9] = proto;
    pkt[10] = 0;
    pkt[11] = 0;
    let cs = ipv4_checksum(&pkt[..20]);
    pkt[10..12].copy_from_slice(&cs.to_be_bytes());
    pkt
}

#[test]
fn flow_scoped_session_filters_ingress() {
    let mut engine = engine_no_tun(1400);
    let a = SessionId(0); // full tunnel
    let b = SessionId(4); // flow tunnel scoped to {A's address, UDP}
    let c = SessionId(8); // full tunnel
    let addr_a = v4("10.100.0.2");
    let addr_b = v4("10.100.0.3");
    let addr_c = v4("10.100.0.4");
    engine.register_session(a, allow_all_policy(), usize::MAX);
    engine.register_session(
        b,
        EgressPolicy::new(vec![IpAddressRange {
            ip_version: 4,
            start_ip: IpAddr::V4(addr_a),
            end_ip: IpAddr::V4(addr_a),
            ip_protocol: 17, // UDP only
        }]),
        usize::MAX,
    );
    engine.register_session(c, allow_all_policy(), usize::MAX);
    engine.insert_client_addr(IpAddr::V4(addr_a), a);
    engine.insert_client_addr(IpAddr::V4(addr_b), b);
    engine.insert_client_addr(IpAddr::V4(addr_c), c);

    // In-scope sender + protocol: delivered.
    let udp_from_a = with_proto(
        build_ipv4_icmp_echo(addr_a, addr_b, false, 1, 1, b"udpish", 64),
        17,
    );
    let v = engine.forward_from_client(a, &assigned(addr_a), &udp_from_a);
    assert_eq!(outcome(&v).unwrap(), Forwarded::Hairpin(b));

    // Out-of-scope sender: dropped, sender told it is prohibited.
    let udp_from_c = with_proto(
        build_ipv4_icmp_echo(addr_c, addr_b, false, 1, 1, b"udpish", 64),
        17,
    );
    let v = engine.forward_from_client(c, &assigned(addr_c), &udp_from_c);
    assert!(matches!(
        outcome(&v).unwrap_err(),
        ForwardingError::NotAllowed(_)
    ));
    let icmp_reply = reply(&v).unwrap();
    assert_eq!(icmp_reply[20], 3);
    assert_eq!(icmp_reply[21], 13, "administratively prohibited");

    // ICMP from the in-scope peer passes despite the UDP-only scope
    // (RFC 9484: ICMP always allowed on the protocol dimension).
    let icmp_from_a = build_ipv4_icmp_echo(addr_a, addr_b, false, 1, 2, b"ping", 64);
    let v = engine.forward_from_client(a, &assigned(addr_a), &icmp_from_a);
    assert_eq!(outcome(&v).unwrap(), Forwarded::Hairpin(b));
}

#[test]
fn network_ingress_dispatches_to_session() {
    let mut engine = engine_no_tun(1400);
    let a = SessionId(0);
    let addr_a = v4("10.100.0.2");
    engine.register_session(a, allow_all_policy(), usize::MAX);
    engine.insert_client_addr(IpAddr::V4(addr_a), a);

    let inbound = build_ipv4_icmp_echo(v4("192.0.2.1"), addr_a, true, 1, 1, b"", 64);
    match engine.dispatch_from_network(&inbound) {
        Verdict::Deliver { session, .. } => assert_eq!(session, a),
        _ => panic!("expected a delivery"),
    }
}

#[test]
fn mtu_enforced_with_packet_too_big() {
    let mut engine = engine_no_tun(1280);
    let a = SessionId(0);
    let addr_a = v4("10.100.0.2");
    engine.register_session(a, allow_all_policy(), usize::MAX);

    let big = build_ipv4_icmp_echo(addr_a, v4("192.0.2.1"), false, 1, 1, &[0u8; 1400], 64);
    let v = engine.forward_from_client(a, &assigned(addr_a), &big);
    assert!(matches!(
        outcome(&v).unwrap_err(),
        ForwardingError::MtuExceeded
    ));

    let icmp_reply = reply(&v).unwrap();
    assert_eq!(icmp_reply[20], 3);
    assert_eq!(icmp_reply[21], 4, "fragmentation needed");
    assert_eq!(
        u16::from_be_bytes([icmp_reply[26], icmp_reply[27]]),
        1280,
        "next-hop MTU"
    );
}
