//! What holds of the proxy's core as a whole, on concrete values.

use bytes::{Bytes, BytesMut};
use http::{HeaderMap, HeaderValue};
use straw::address_pool::AddressPool;
use straw::capsule::codec::{read_varint, write_varint, VARINT_MAX};
use straw::capsule::{
    decode_capsule, encode_capsule, AddressAssign, AddressRequest, AssignedAddress, Capsule,
    CapsuleBuffer, IpAddressRange, RequestedAddress, RouteAdvertisement,
};
use straw::client::{
    accepted, address_request, answered, any_reconfigures, bind_addr, route_advertisement,
    tunnel_uri, TunnelClient,
};
use straw::config::ProxyConfig;
use straw::datagram::context::{ContextKind, ContextRegistry};
use straw::daemon::{authorization, ClientAuth};
use straw::datagram::{encode_quic_datagram, max_ip_packet_size, path_mtu, IpProxyingDatagram};
use straw::error::{DecodeError, ForwardingError, ProxyError};
use straw::forwarding::checksum::ipv4_checksum;
use straw::forwarding::icmp::{build_icmp_error, IcmpErrorKind, IcmpSource};
use straw::forwarding::limiter::{RateLimits, SessionLimiter};
use straw::forwarding::masquerade::{NatSetup, Outcome};
use straw::forwarding::packet::{
    build_ipv4_icmp_echo, decrement_ttl, parse_packet, validate_destination,
};
use straw::forwarding::router::{entries_from_client_ranges, RouteEntry, RouteTable};
use straw::forwarding::tun::{read_frame, utun_name_request, write_frame, TunConfig};
use straw::forwarding::vnet::{expand, VnetHdr, VIRTIO_NET_HDR_GSO_TCPV4};
use straw::forwarding::{
    conclude, frame_for_session, EgressPolicy, Forwarded, ForwardingEngine, Sent, Verdict,
};
use straw::iface::{command_failed, configure, Cmd, InterfaceGuard, InterfaceSetup, Platform};
use straw::net::{IpAddr, IpNet, Ipv4Addr, Ipv4Net, Ipv6Addr, Ipv6Net, SocketAddr};
use straw::server::{
    build_context, cert_source, client_ca, datagram_buffer, dispatch, idle_timeout, on_connection,
    peek_session, reaper_interval, receive_datagram, settle_at, tun_config, CertSource, ConnectionEvent,
    ConnectionStep, Handler, Received,
};
use straw::session::auth::{cert_fingerprint, AuthMode};
use straw::session::handler::{
    advertised_routes, allocate_addresses, full_tunnel_routes, handle_capsule, install_tunnel,
    rejection_status, request_scope, teardown, validate_request,
};
use straw::session::{RequestScope, SessionId, SessionManager, TunnelSession};
use straw::text::{hex, same_ignoring_case, split_words};

fn ip(s: &str) -> IpAddr {
    match s.parse().unwrap() {
        core::net::IpAddr::V4(a) => IpAddr::V4(Ipv4Addr { bits: a.into() }),
        core::net::IpAddr::V6(a) => IpAddr::V6(Ipv6Addr { bits: a.into() }),
    }
}

fn v4(s: &str) -> Ipv4Addr {
    match ip(s) {
        IpAddr::V4(a) => a,
        IpAddr::V6(_) => panic!("not an IPv4 address"),
    }
}

fn v6(s: &str) -> Ipv6Addr {
    match ip(s) {
        IpAddr::V6(a) => a,
        IpAddr::V4(_) => panic!("not an IPv6 address"),
    }
}

fn net(s: &str) -> IpNet {
    let (a, len) = s.split_once('/').unwrap();
    IpNet::new(ip(a), len.parse().unwrap()).unwrap()
}

fn v4net(s: &str) -> Ipv4Net {
    match net(s) {
        IpNet::V4(n) => n,
        IpNet::V6(_) => panic!("not an IPv4 network"),
    }
}

fn v6net(s: &str) -> Ipv6Net {
    match net(s) {
        IpNet::V6(n) => n,
        IpNet::V4(_) => panic!("not an IPv6 network"),
    }
}

fn addr(s: &str) -> SocketAddr {
    let a: core::net::SocketAddr = s.parse().unwrap();
    SocketAddr::new(ip(&a.ip().to_string()), a.port())
}

fn assigned_one(a: IpAddr) -> AssignedAddress {
    AssignedAddress {
        request_id: 0,
        ip_version: a.version(),
        ip_address: a,
        prefix_length: if a.is_ipv4() { 32 } else { 128 },
    }
}

fn range(start: &str, end: &str, ip_protocol: u8) -> IpAddressRange {
    IpAddressRange {
        ip_version: ip(start).version(),
        start_ip: ip(start),
        end_ip: ip(end),
        ip_protocol,
    }
}

#[test]
fn every_varint_width_round_trips_and_leaves_the_rest() {
    for val in [0, 63, 64, 16_383, 16_384, 1 << 29, 1 << 30, VARINT_MAX] {
        let mut buf = BytesMut::new();
        write_varint(&mut buf, val).unwrap();
        buf.extend_from_slice(b"rest");
        let mut cursor = &buf[..];
        assert_eq!(read_varint(&mut cursor).unwrap(), val);
        assert_eq!(cursor, b"rest");
    }
}

#[test]
fn a_refused_varint_leaves_the_buffer_alone() {
    let mut buf = BytesMut::new();
    assert_eq!(
        write_varint(&mut buf, VARINT_MAX + 1),
        Err(DecodeError::InvalidVarInt)
    );
    assert!(buf.is_empty());
}

#[test]
fn a_capsule_is_not_found_before_all_of_it_is_there() {
    let capsule = Capsule::AddressRequest(AddressRequest {
        requested_addresses: vec![RequestedAddress {
            request_id: 300,
            ip_version: 6,
            ip_address: ip("fd00::7"),
            prefix_length: 128,
        }],
    });
    let mut wire = BytesMut::new();
    encode_capsule(&capsule, &mut wire);
    for k in 0..wire.len() {
        let mut b = CapsuleBuffer::new();
        b.push(&wire[..k]);
        assert!(b.next_capsule().unwrap().is_none());
        b.push(&wire[k..]);
        assert!(matches!(
            b.next_capsule().unwrap(),
            Some(Capsule::AddressRequest(_))
        ));
    }
}

#[test]
fn a_repeated_range_is_out_of_order() {
    let once = [4u8, 10, 0, 0, 0, 10, 0, 0, 255, 0];
    let mut twice = once.to_vec();
    twice.extend_from_slice(&once);
    assert!(RouteAdvertisement::decode(&once).is_ok());
    assert!(RouteAdvertisement::decode(&twice).is_err());
}

#[test]
fn error_messages_say_what_is_wrong() {
    let decode = [
        (DecodeError::Underflow, "unexpected end of buffer"),
        (DecodeError::InvalidIpVersion(9), "invalid IP version: 9"),
        (
            DecodeError::InvalidPrefixLength {
                ip_version: 4,
                prefix_len: 33,
            },
            "invalid prefix length 33 for IPv4",
        ),
        (
            DecodeError::InvalidVarInt,
            "invalid variable-length integer",
        ),
        (
            DecodeError::BufferTooShort {
                needed: 4,
                available: 1,
            },
            "buffer too short: need 4 bytes, have 1",
        ),
        (
            DecodeError::TrailingBytes(3),
            "unexpected trailing bytes: 3 bytes remaining",
        ),
    ];
    for (e, text) in decode {
        assert_eq!(e.message(), text);
        assert_eq!(
            ProxyError::Decode(e).message(),
            format!("decode error: {text}")
        );
    }
    let forwarding = [
        (ForwardingError::MalformedPacket, "malformed IP packet"),
        (
            ForwardingError::SourceAddressViolation(ip("10.0.0.9")),
            "source address 10.0.0.9 not assigned to session",
        ),
        (ForwardingError::TtlExpired, "TTL/Hop Limit expired"),
        (ForwardingError::LinkLocalDrop, "link-local address dropped"),
        (ForwardingError::MtuExceeded, "packet exceeds tunnel MTU"),
        (ForwardingError::NoRoute, "no route to destination"),
        (
            ForwardingError::NotAllowed(ip("fd00::9")),
            "destination fd00::9 outside advertised routes",
        ),
        (
            ForwardingError::Congested,
            "forwarding queue full, packet dropped",
        ),
    ];
    for (e, text) in forwarding {
        assert_eq!(e.message(), text);
        assert_eq!(
            ProxyError::Forwarding(e).message(),
            format!("forwarding error: {text}")
        );
    }
    let x = || "x".to_string();
    assert_eq!(ProxyError::Io(x()).message(), "I/O error: x");
    assert_eq!(
        ProxyError::InvalidRequest(x()).message(),
        "invalid CONNECT-IP request: x"
    );
    assert_eq!(
        ProxyError::AuthFailed(x()).message(),
        "authentication failed: x"
    );
    assert_eq!(
        ProxyError::SessionNotFound(7).message(),
        "session not found: 7"
    );
    assert_eq!(ProxyError::Tls(x()).message(), "TLS error: x");
    assert_eq!(ProxyError::Quic(x()).message(), "QUIC error: x");
    assert_eq!(ProxyError::Http(x()).message(), "HTTP/3 error: x");
    assert_eq!(ProxyError::Config(x()).message(), "configuration error: x");
    assert_eq!(ProxyError::PoolExhausted.message(), "address pool exhausted");
}

#[test]
fn the_usable_size_is_exactly_what_fits_a_datagram() {
    for qsid in [0u64, 64, 16_384] {
        let max = 1200;
        let usable = max_ip_packet_size(max, qsid).unwrap();
        let fits = Bytes::from(vec![0u8; usable]);
        let wire = frame_for_session(qsid, fits, Some(max)).unwrap();
        assert_eq!(wire.len(), max);
        let too_big = Bytes::from(vec![0u8; usable + 1]);
        assert_eq!(
            frame_for_session(qsid, too_big, Some(max)).unwrap_err(),
            ForwardingError::MtuExceeded
        );
    }
}

#[test]
fn a_registered_context_is_found() {
    let mut reg = ContextRegistry::default();
    assert_eq!(reg.lookup(6), None);
    reg.register(6, ContextKind::IpPacket);
    assert_eq!(reg.lookup(6), Some(ContextKind::IpPacket));
    assert_eq!(reg.lookup(0), Some(ContextKind::IpPacket));
}

#[test]
fn a_hop_changes_only_the_ttl_and_the_checksum() {
    let before = build_ipv4_icmp_echo(v4("10.0.0.1"), v4("192.0.2.1"), false, 7, 8, b"data", 64);
    let mut after = before.clone();
    decrement_ttl(&mut after).unwrap();
    assert_eq!(after[8], 63);
    assert_eq!(after[..8], before[..8]);
    assert_eq!(after[9], before[9]);
    assert_eq!(after[12..], before[12..]);
    assert_eq!(ipv4_checksum(&after[..20]), 0);
}

#[test]
fn every_icmp_error_kind_has_its_type_and_code() {
    let source = IcmpSource {
        v4: v4("10.100.0.1"),
        v6: Some(v6("fd00::1")),
    };
    let orig = build_ipv4_icmp_echo(v4("10.100.0.2"), v4("192.0.2.1"), false, 1, 1, b"", 64);
    for (kind, kind_byte, code) in [
        (IcmpErrorKind::TimeExceeded, 11, 0),
        (IcmpErrorKind::NoRoute, 3, 0),
        (IcmpErrorKind::AdminProhibited, 3, 13),
        (IcmpErrorKind::PacketTooBig { mtu: 1300 }, 3, 4),
    ] {
        let err = build_icmp_error(kind, source, &orig).unwrap();
        assert_eq!((err[20], err[21]), (kind_byte, code));
        assert_eq!(ipv4_checksum(&err[20..]), 0);
        assert!(parse_packet(&err).is_ok());
    }
}

#[test]
fn segments_reassemble_to_the_aggregate() {
    let payload_len = 2500usize;
    let mut p = vec![0u8; 40 + payload_len];
    p[0] = 0x45;
    p[2..4].copy_from_slice(&((40 + payload_len) as u16).to_be_bytes());
    p[8] = 64;
    p[9] = 6;
    p[32] = 5 << 4;
    p[33] = 0x18;
    for (i, b) in p[40..].iter_mut().enumerate() {
        *b = (i * 7) as u8;
    }
    let hdr = VnetHdr {
        flags: 1,
        gso_type: VIRTIO_NET_HDR_GSO_TCPV4,
        hdr_len: 40,
        gso_size: 900,
        csum_start: 20,
        csum_offset: 16,
    };
    let mut out = Vec::new();
    expand(&hdr, Bytes::from(p.clone()), &mut out).unwrap();
    let mut joined = Vec::new();
    for seg in &out {
        assert!(parse_packet(seg).is_ok());
        joined.extend_from_slice(&seg[40..]);
    }
    assert_eq!(joined, p[40..]);
}

#[test]
fn frames_of_the_device_carry_packets() {
    let packet = build_ipv4_icmp_echo(v4("10.0.0.1"), v4("10.0.0.2"), false, 1, 1, b"x", 64);
    let frame = write_frame(&packet);
    assert_eq!(frame.len(), packet.len() + 10);
    let back = read_frame(&frame).unwrap();
    assert_eq!(back.len(), 1);
    assert_eq!(&back[0][..], &packet[..]);
    assert!(read_frame(&frame[..10]).is_none());
    let mut unknown = frame.clone();
    unknown[1] = 3;
    assert!(read_frame(&unknown).is_none());
}

#[test]
fn a_utun_device_refuses_an_ipv6_address() {
    let mut cfg = TunConfig {
        name: "utun7".to_string(),
        mtu: 1400,
        ipv4: None,
        ipv6: None,
    };
    assert_eq!(
        utun_name_request(&cfg).unwrap(),
        Some("utun7".to_string())
    );
    cfg.name = "strawc0".to_string();
    assert_eq!(utun_name_request(&cfg).unwrap(), None);
    cfg.ipv6 = Some((v6("fd00::1"), 64));
    assert_eq!(
        utun_name_request(&cfg).unwrap_err().message(),
        "configuration error: IPv6 on the TUN device is not supported on macOS yet"
    );
}

#[test]
fn admitted_packets_stay_within_rate_and_burst() {
    let mut l = SessionLimiter::new(RateLimits {
        packets_per_sec: 5,
        bytes_per_sec: 0,
    });
    let t0 = l.now();
    let mut admitted = 0;
    for tenth in 0..30u64 {
        for _ in 0..10 {
            if l.try_consume_at(1, t0 + tenth * 100_000_000) {
                admitted += 1;
            }
        }
    }
    assert!(admitted <= 5 + 5 * 3);
    assert!(admitted >= 5);
}

#[test]
fn a_route_to_a_removed_session_is_gone() {
    let mut table = RouteTable::new();
    let gone = SessionId(4);
    table.insert_client_addr(ip("10.0.0.2"), gone);
    table.insert_route(RouteEntry {
        prefix: net("10.1.0.0/16"),
        ip_protocol: 0,
        session_id: gone,
    });
    table.insert_route(RouteEntry {
        prefix: net("10.0.0.0/8"),
        ip_protocol: 0,
        session_id: SessionId(8),
    });
    assert_eq!(table.lookup(ip("10.1.2.3"), 6), Some(gone));
    table.remove_session(gone);
    assert_eq!(table.lookup(ip("10.1.2.3"), 6), Some(SessionId(8)));
    assert_eq!(table.lookup(ip("10.0.0.2"), 6), Some(SessionId(8)));
}

#[test]
fn prefixes_of_a_range_cover_it_and_nothing_else() {
    let r = range("10.0.0.3", "10.0.0.17", 0);
    let entries = entries_from_client_ranges(SessionId(0), &[r], &[]);
    for last in 0..32u8 {
        let a = IpAddr::V4(Ipv4Addr::new(10, 0, 0, last));
        let covered = entries.iter().filter(|e| e.prefix.contains(&a)).count();
        assert_eq!(covered, if (3..=17).contains(&last) { 1 } else { 0 });
    }
    let all6 = range("::", "ffff:ffff:ffff:ffff:ffff:ffff:ffff:ffff", 0);
    assert_eq!(
        entries_from_client_ranges(SessionId(0), &[all6], &[])[0].prefix,
        net("::/0")
    );
}

#[test]
fn forwarding_refuses_what_must_not_leave() {
    assert_eq!(
        validate_destination(&ip("169.254.1.1")).unwrap_err(),
        ForwardingError::LinkLocalDrop
    );
    assert!(validate_destination(&ip("8.8.8.8")).is_ok());
    assert_eq!(
        conclude(
            &Verdict::Network {
                packet: Vec::new()
            },
            Sent::Taken
        ),
        Ok(Forwarded::Tun)
    );
    assert_eq!(
        conclude(
            &Verdict::Network {
                packet: Vec::new()
            },
            Sent::Full
        ),
        Err(ForwardingError::Congested)
    );
    assert_eq!(
        conclude(
            &Verdict::Deliver {
                session: SessionId(1),
                packet: Vec::new()
            },
            Sent::TooBig
        ),
        Err(ForwardingError::MtuExceeded)
    );
}

#[test]
fn no_address_is_given_twice_and_reserved_ones_never() {
    let mut p = AddressPool::new(v4net("10.9.0.0/28"), Some(v6net("fd00::/64")));
    let mut seen = Vec::new();
    for s in 0..20u64 {
        if let Some(a) = p.allocate_v4(SessionId(s)) {
            assert!(!seen.contains(&a.ip_address));
            seen.push(a.ip_address);
        }
    }
    assert_eq!(seen.len(), 13);
    for reserved in ["10.9.0.0", "10.9.0.1", "10.9.0.15"] {
        assert!(!seen.contains(&ip(reserved)));
    }
    // A specific request gets neither gateway.
    for wanted in ["10.9.0.1", "fd00::1"] {
        let got = p.allocate_for_request(
            SessionId(99),
            &RequestedAddress {
                request_id: 5,
                ip_version: ip(wanted).version(),
                ip_address: ip(wanted),
                prefix_length: if ip(wanted).is_ipv4() { 32 } else { 128 },
            },
        );
        match got {
            Some(a) => assert_ne!(a.ip_address, ip(wanted)),
            None => {}
        }
    }
    p.release(SessionId(3));
    assert!(p.allocate_v4(SessionId(50)).is_some());
    assert_eq!(
        p.pool_nets(),
        vec![net("10.9.0.0/28"), net("fd00::/64")]
    );
    assert_eq!(p.ipv6_gateway(), Some((v6("fd00::1"), 64)));
}

fn scope() -> RequestScope {
    RequestScope {
        target: None,
        ip_proto: None,
    }
}

#[test]
fn a_session_is_idle_once_its_timeout_has_passed() {
    let mut m = SessionManager::new(4);
    let id = SessionId::compose(1, 8);
    m.insert(TunnelSession::new(id, scope(), 100)).unwrap();
    assert!(!m.idle_at(id, 149, 50));
    assert!(m.idle_at(id, 150, 50));
    m.touch_at(id, 140);
    assert!(!m.idle_at(id, 150, 50));
    let now = m.touch(id);
    assert!(m.idle_at(id, now, 0));
    assert!(!m.idle_at(id, now, 1));
    assert!(!m.idle_at(SessionId(77), 1_000, 1));
    assert_eq!(m.len(), 1);
    m.remove(id);
    assert!(m.is_empty());
    assert!(m.assigned_snapshot(id).is_none());
}

#[test]
fn request_validation_names_the_fault() {
    let mut headers = HeaderMap::new();
    headers.insert("capsule-protocol", HeaderValue::from_static("?1"));
    assert!(validate_request("CONNECT", Some("connect-ip"), &headers).is_ok());
    for (method, protocol) in [
        ("GET", Some("connect-ip")),
        ("CONNECT", None),
        ("CONNECT", Some("connect-udp")),
    ] {
        let e = validate_request(method, protocol, &headers).unwrap_err();
        assert_eq!(rejection_status(&e), 400);
    }
    assert!(validate_request("CONNECT", Some("connect-ip"), &HeaderMap::new()).is_err());
    assert_eq!(rejection_status(&ProxyError::PoolExhausted), 500);
}

fn config() -> ProxyConfig {
    let mut c = ProxyConfig::default();
    c.ipv4_pool = v4net("10.100.0.0/24");
    c
}

#[test]
fn a_tunnel_lives_and_is_torn_down() {
    let mut ctx = build_context(config()).unwrap();
    let id = SessionId::compose(3, 16);
    ctx.sessions
        .insert(TunnelSession::new(id, scope(), 0))
        .unwrap();
    let mut assigned = allocate_addresses(&mut ctx, id).unwrap();
    assert_eq!(assigned[0].ip_address, ip("10.100.0.2"));
    let routes = advertised_routes(&ctx);
    assert_eq!(routes, full_tunnel_routes(false));
    install_tunnel(&mut ctx, id, &assigned, routes, usize::MAX);

    // The client pings itself: a full data-plane round trip.
    let echo = build_ipv4_icmp_echo(v4("10.100.0.2"), v4("10.100.0.2"), false, 1, 1, b"", 64);
    let wire = encode_quic_datagram(4, &IpProxyingDatagram::ip_packet(Bytes::from(echo)));
    assert_eq!(peek_session(3, &wire), Some((id, 1)));
    match receive_datagram(&mut ctx, 3, &wire) {
        Received::Packet { session, verdict } => {
            assert_eq!(session, id);
            assert_eq!(
                settle_at(&mut ctx, session, &verdict, Sent::Taken, 42),
                Ok(Forwarded::Hairpin(id))
            );
        }
        Received::Ignored => panic!("the datagram was ignored"),
    }
    assert!(!ctx.sessions.idle_at(id, 42, 1));

    // Another connection's datagram and a malformed one are dropped.
    assert!(matches!(
        receive_datagram(&mut ctx, 4, &wire),
        Received::Ignored
    ));
    assert!(matches!(
        receive_datagram(&mut ctx, 3, &Bytes::new()),
        Received::Ignored
    ));

    // A further address on request joins the assignment, whole.
    let reply = handle_capsule(
        &mut ctx,
        Capsule::AddressRequest(AddressRequest {
            requested_addresses: vec![RequestedAddress {
                request_id: 9,
                ip_version: 4,
                ip_address: ip("10.100.0.77"),
                prefix_length: 32,
            }],
        }),
        id,
        &mut assigned,
    );
    match reply {
        Some(Capsule::AddressAssign(a)) => {
            assert_eq!(a.assigned_addresses.len(), 2);
            assert_eq!(a.assigned_addresses, assigned);
            assert_eq!(a.assigned_addresses[1].request_id, 9);
            assert_eq!(a.assigned_addresses[1].ip_address, ip("10.100.0.77"));
        }
        _ => panic!("expected an assignment"),
    }

    teardown(&mut ctx, id);
    assert!(ctx.sessions.is_empty());
    assert!(ctx.engine.route_table().lookup(ip("10.100.0.2"), 6).is_none());
    assert!(matches!(
        receive_datagram(&mut ctx, 3, &wire),
        Received::Ignored
    ));
}

#[test]
fn the_context_follows_the_configuration() {
    let mut c = config();
    c.auth_basic = vec!["nocolon".to_string()];
    assert_eq!(
        build_context(c).err().unwrap().message(),
        "configuration error: --auth-basic entry \"nocolon\" is not user:password"
    );

    let mut c = config();
    c.tun = true;
    c.tun_name = "straw7".to_string();
    c.ipv6_pool = Some(v6net("fd00::/64"));
    let ctx = build_context(c).unwrap();
    let t = tun_config(&ctx);
    assert_eq!(t.name, "straw7");
    assert_eq!(t.ipv4, Some((v4("10.100.0.1"), 24)));
    assert_eq!(t.ipv6, Some((v6("fd00::1"), 64)));
}

#[test]
fn tls_material_is_chosen_by_the_configuration() {
    let mut c = config();
    assert!(matches!(cert_source(&c), CertSource::SelfSigned));
    c.cert = Some("c.pem".to_string());
    assert!(matches!(cert_source(&c), CertSource::SelfSigned));
    c.key = Some("k.pem".to_string());
    match cert_source(&c) {
        CertSource::Files { cert, key } => {
            assert_eq!((cert.as_str(), key.as_str()), ("c.pem", "k.pem"))
        }
        CertSource::SelfSigned => panic!("expected the files"),
    }
    c.client_ca = Some("ca.pem".to_string());
    assert_eq!(client_ca(&c), None);
    c.auth_mode = AuthMode::Mtls;
    assert_eq!(client_ca(&c), Some("ca.pem".to_string()));
}

#[test]
fn requests_are_dispatched_by_protocol() {
    assert_eq!(dispatch(Some("connect-udp")), Handler::UdpBind);
    assert_eq!(dispatch(Some("connect-ip")), Handler::ConnectIp);
    assert_eq!(dispatch(None), Handler::ConnectIp);
    assert!(matches!(
        on_connection(ConnectionEvent::Request(Some("connect-udp"))),
        ConnectionStep::Serve(Handler::UdpBind)
    ));
    assert!(matches!(
        on_connection(ConnectionEvent::Shutdown),
        ConnectionStep::Goaway
    ));
    assert!(matches!(
        on_connection(ConnectionEvent::Closed),
        ConnectionStep::End(Ok(()))
    ));
    assert!(matches!(
        on_connection(ConnectionEvent::Failed(ProxyError::PoolExhausted)),
        ConnectionStep::End(Err(ProxyError::PoolExhausted))
    ));
    assert_eq!(datagram_buffer(1400), 716_800);
}

#[test]
fn idle_sessions_are_looked_for_twice_per_timeout() {
    assert_eq!(reaper_interval(0), None);
    assert_eq!(reaper_interval(1), Some(500));
    assert_eq!(reaper_interval(60), Some(30_000));
    assert_eq!(reaper_interval(3600), Some(30_000));
}

#[test]
fn validation_names_the_missing_option() {
    let mut c = config();
    c.mtu = 1000;
    assert_eq!(
        c.validate().unwrap_err().message(),
        "configuration error: MTU 1000 is below the IPv6 minimum of 1280"
    );
    for (mode, text) in [
        (
            AuthMode::Bearer,
            "--auth-mode bearer requires at least one --auth-token",
        ),
        (
            AuthMode::Basic,
            "--auth-mode basic requires at least one --auth-basic user:pass",
        ),
        (AuthMode::Mtls, "--auth-mode mtls requires --client-ca"),
    ] {
        let mut c = config();
        c.auth_mode = mode;
        assert_eq!(
            c.validate().unwrap_err().message(),
            format!("configuration error: {text}")
        );
    }
    let mut c = config();
    c.nat_interface = Some("eth0".to_string());
    assert_eq!(
        c.validate().unwrap_err().message(),
        "configuration error: --nat-interface requires --tun"
    );
}

#[test]
fn the_kernel_is_configured_pin_first_and_undone_in_reverse() {
    let assigned = [assigned_one(ip("10.100.0.2"))];
    let routes = [range("0.0.0.0", "255.255.255.255", 0)];
    let setup = InterfaceSetup {
        dev: "strawc0",
        assigned: &assigned,
        routes: &routes,
        pin: Some(ip("203.0.113.9")),
        install_routes: true,
    };
    let steps = configure(
        Platform::Linux,
        &setup,
        Some((Some(ip("192.168.1.1")), "eth0".to_string())),
    );
    let run: Vec<String> = steps.iter().map(|s| s.run.to_text()).collect();
    assert_eq!(
        run,
        vec![
            "ip route add 203.0.113.9/32 via 192.168.1.1 dev eth0",
            "ip addr add 10.100.0.2/32 dev strawc0",
            "ip route add 0.0.0.0/1 dev strawc0",
            "ip route add 128.0.0.0/1 dev strawc0",
        ]
    );
    let mut guard = InterfaceGuard::new();
    let n = steps.len();
    for s in steps {
        guard.done(s.undo);
    }
    assert_eq!(
        guard.next_undo().unwrap().to_text(),
        "ip route del 128.0.0.0/1 dev strawc0"
    );
    for _ in 1..n - 1 {
        guard.next_undo().unwrap();
    }
    assert_eq!(
        guard.next_undo().unwrap().to_text(),
        "ip route del 203.0.113.9/32 via 192.168.1.1 dev eth0"
    );
    assert!(guard.next_undo().is_none());
}

#[test]
fn nat_setup_checks_before_it_appends() {
    let mut s = NatSetup::new(&[net("10.0.0.0/8")], "eth0");
    let (program, args) = s.command().unwrap();
    assert_eq!(
        (program, args.join(" ").as_str()),
        ("sysctl", "-w net.ipv4.ip_forward=1")
    );
    s.report(Outcome::Success).unwrap();
    let (program, args) = s.command().unwrap();
    assert_eq!(program, "iptables");
    assert_eq!(
        args.join(" "),
        "-t nat -C POSTROUTING -s 10.0.0.0/8 -o eth0 -j MASQUERADE"
    );
    s.report(Outcome::Failure).unwrap();
    assert_eq!(
        s.command().unwrap().1.join(" "),
        "-t nat -A POSTROUTING -s 10.0.0.0/8 -o eth0 -j MASQUERADE"
    );
    assert_eq!(
        s.report(Outcome::Failure).unwrap_err().message(),
        "configuration error: iptables -A POSTROUTING rule failed"
    );
    s.report(Outcome::Success).unwrap();
    assert!(s.command().is_none());
    let removal = s.guard().removal();
    assert_eq!(
        removal[0].1.join(" "),
        "-t nat -D POSTROUTING -s 10.0.0.0/8 -o eth0 -j MASQUERADE"
    );
}

#[test]
fn the_client_folds_capsules_into_its_state() {
    let mut client = TunnelClient::new(4);
    let mut wire = BytesMut::new();
    AddressAssign {
        assigned_addresses: vec![
            assigned_one(ip("fd00::5")),
            assigned_one(ip("10.100.0.5")),
        ],
    }
    .encode(&mut wire);
    let seen = client.process_next_capsules(&wire).unwrap();
    assert!(answered(&seen) && any_reconfigures(&seen));
    assert!(!client.ready());
    assert_eq!(client.ipv4_address(), Some(v4("10.100.0.5")));
    let seen = client
        .process_next_capsules(&route_advertisement(full_tunnel_routes(true)))
        .unwrap();
    assert!(!answered(&seen) && any_reconfigures(&seen));
    assert!(client.ready());
    assert_eq!(client.routes, full_tunnel_routes(true));
    // Unknown capsules change nothing; a malformed one is an error.
    let seen = client.process_next_capsules(&[0x3f, 1, 9]).unwrap();
    assert!(seen.len() == 1 && !any_reconfigures(&seen));
    assert!(matches!(
        client.process_next_capsules(&[1, 1, 0]),
        Err(ProxyError::Decode(_))
    ));
}

#[test]
fn the_client_frames_and_reads_packets_of_its_tunnel() {
    let client = TunnelClient::new(4);
    let packet = Bytes::from_static(b"an ip packet");
    let wire = client.send_packet(packet.clone(), Some(1200)).unwrap();
    assert_eq!(client.recv_packet(&wire), Some(packet.clone()));
    assert_eq!(TunnelClient::new(5).recv_packet(&wire), None);
    assert!(matches!(
        client.send_packet(packet, Some(3)),
        Err(ProxyError::Forwarding(ForwardingError::MtuExceeded))
    ));
    let request = address_request(RequestedAddress {
        request_id: 1,
        ip_version: 4,
        ip_address: ip("0.0.0.0"),
        prefix_length: 32,
    });
    assert!(matches!(
        decode_capsule(&mut &request[..]).unwrap(),
        Capsule::AddressRequest(_)
    ));
}

#[test]
fn the_client_connects_like_this() {
    assert_eq!(
        tunnel_uri("proxy.example", 4433),
        "https://proxy.example:4433/.well-known/masque/ip/*/*/"
    );
    assert!(accepted(200, "200 OK").is_ok());
    assert_eq!(
        accepted(403, "403 Forbidden").unwrap_err().message(),
        "HTTP/3 error: proxy rejected tunnel: 403 Forbidden"
    );
    assert_eq!(bind_addr(addr("10.0.0.1:443")), addr("0.0.0.0:0"));
    assert_eq!(bind_addr(addr("[fd00::1]:443")), addr("[::]:0"));
}

#[test]
fn text_helpers_match_their_names() {
    assert_eq!(hex(&[0x00, 0xab, 0x7f]), "00ab7f");
    // SHA-256 of the empty string.
    assert_eq!(
        cert_fingerprint(b""),
        "e3b0c44298fc1c149afbf4c8996fb92427ae41e4649b934ca495991b7852b855"
    );
    let words = split_words(&[' ', 'a', '\t', 'b', 'c', '\n']);
    assert_eq!(words, vec![vec!['a'], vec!['b', 'c']]);
    assert!(same_ignoring_case(&['A', 'b'], &['a', 'B']));
}

#[test]
fn a_session_mtu_follows_the_path_once_it_is_registered() {
    let source = IcmpSource { v4: v4("10.100.0.1"), v6: None };
    let mut engine = ForwardingEngine::new(false, 1400, source, RateLimits::default());
    let (known, unknown) = (SessionId(4), SessionId(8));
    engine.register_session(known, EgressPolicy::new(vec![range("0.0.0.0", "255.255.255.255", 0)]), 1200);
    assert_eq!(engine.session_mtu(known), 1200);
    engine.set_session_mtu(known, 1350);
    engine.set_session_mtu(unknown, 1350);
    assert_eq!(engine.session_mtu(known), 1350);
    assert_eq!(engine.session_mtu(unknown), 1400);
}

#[test]
fn the_path_before_the_tunnel_is_asked_for_and_read_back() {
    let dst = ip("203.0.113.9");
    let cmd = Platform::Linux.path_cmd(dst).unwrap();
    assert_eq!(cmd.to_text(), "ip route get 203.0.113.9");
    assert!(Platform::Other.path_cmd(dst).is_none());

    let said = "203.0.113.9 via 192.168.1.1 dev eth0 src 192.168.1.5 uid 0";
    let (gateway, dev) = Platform::Linux.path_to(dst, said).unwrap();
    assert_eq!(gateway, Some(ip("192.168.1.1")));
    assert_eq!(dev, "eth0");
    match Platform::Linux.path_to(dst, "unreachable") {
        Err(ProxyError::Config(t)) => {
            assert_eq!(t, "could not parse the current route to 203.0.113.9")
        }
        _ => panic!("a path was read out of nothing"),
    }
    match Platform::Other.path_to(dst, said) {
        Err(ProxyError::Config(t)) => {
            assert_eq!(t, "interface configuration is supported on Linux and macOS only")
        }
        _ => panic!("an unsupported platform has no path"),
    }
}

#[test]
fn a_failed_command_reports_what_it_said() {
    let cmd = Cmd::new("ip", vec!["link".to_string(), "show".to_string()]);
    assert_eq!(cmd.clone(), cmd);
    match command_failed(&cmd, "  no such device\n") {
        ProxyError::Config(t) => assert_eq!(t, "`ip link show` failed: no such device"),
        _ => panic!("a command failure is a configuration error"),
    }
}

#[test]
fn the_setup_reaches_the_client_however_it_is_cut() {
    let assigned = vec![assigned_one(ip("10.100.0.5")), assigned_one(ip("fd00::5"))];
    let routes = full_tunnel_routes(true);
    let mut wire = BytesMut::new();
    encode_capsule(
        &Capsule::AddressAssign(AddressAssign {
            assigned_addresses: assigned.clone(),
        }),
        &mut wire,
    );
    encode_capsule(
        &Capsule::RouteAdvertisement(RouteAdvertisement {
            ip_address_ranges: routes.clone(),
        }),
        &mut wire,
    );
    for cut in 0..=wire.len() {
        let mut client = TunnelClient::new(4);
        let mut seen = client.process_next_capsules(&wire[..cut]).unwrap();
        assert_eq!(client.ready(), cut == wire.len());
        seen.extend(client.process_next_capsules(&wire[cut..]).unwrap());
        assert_eq!(seen.len(), 2);
        assert!(matches!(seen[0], Capsule::AddressAssign(_)));
        assert!(matches!(seen[1], Capsule::RouteAdvertisement(_)));
        assert_eq!(client.assigned, assigned);
        assert_eq!(client.routes, routes);
    }
}

#[test]
fn an_assigned_address_leads_to_its_holder_alone() {
    let mut ctx = build_context(config()).unwrap();
    let mut held = Vec::new();
    for n in 0..3 {
        let id = SessionId::compose(n, 4);
        ctx.sessions
            .insert(TunnelSession::new(id, scope(), 0))
            .unwrap();
        let assigned = allocate_addresses(&mut ctx, id).unwrap();
        let routes = advertised_routes(&ctx);
        install_tunnel(&mut ctx, id, &assigned, routes, 1500);
        held.push((id, assigned));
    }
    for (id, assigned) in &held {
        let dst = match assigned[0].ip_address {
            IpAddr::V4(a) => a,
            IpAddr::V6(_) => panic!("an IPv4 pool gave an IPv6 address"),
        };
        let echo = build_ipv4_icmp_echo(v4("192.0.2.1"), dst, true, 1, 1, b"", 64);
        match ctx.engine.dispatch_from_network(&echo) {
            Verdict::Deliver { session, .. } => assert_eq!(session, *id),
            _ => panic!("the packet went nowhere"),
        }
    }

    // What one session asks for does not touch what another holds.
    let (id, mut assigned) = held.remove(0);
    let reply = handle_capsule(
        &mut ctx,
        Capsule::AddressRequest(AddressRequest {
            requested_addresses: vec![RequestedAddress {
                request_id: 1,
                ip_version: 4,
                ip_address: held[0].1[0].ip_address,
                prefix_length: 32,
            }],
        }),
        id,
        &mut assigned,
    );
    assert!(reply.is_some());
    let table = ctx.engine.route_table();
    for a in &assigned {
        assert_eq!(table.lookup(a.ip_address, 1), Some(id));
    }
    for (other, theirs) in &held {
        assert_eq!(table.lookup(theirs[0].ip_address, 1), Some(*other));
    }

    // Once a session is gone its addresses lead nowhere, and only its own.
    teardown(&mut ctx, id);
    let table = ctx.engine.route_table();
    for a in &assigned {
        assert_eq!(table.lookup(a.ip_address, 1), None);
    }
    for (other, theirs) in &held {
        assert_eq!(table.lookup(theirs[0].ip_address, 1), Some(*other));
    }
}

#[test]
fn capsules_arrive_whole_however_they_are_cut() {
    let sent = [
        Capsule::AddressAssign(AddressAssign {
            assigned_addresses: vec![assigned_one(ip("10.100.0.5"))],
        }),
        Capsule::Unknown {
            type_id: 0x3f,
            data: Bytes::from_static(b"xyz"),
        },
        Capsule::RouteAdvertisement(RouteAdvertisement {
            ip_address_ranges: full_tunnel_routes(false),
        }),
    ];
    let mut wire = BytesMut::new();
    for capsule in &sent {
        encode_capsule(capsule, &mut wire);
    }
    for size in 1..=wire.len() {
        let mut buffer = CapsuleBuffer::new();
        let mut got = BytesMut::new();
        let mut count = 0;
        for chunk in wire.chunks(size) {
            buffer.push(chunk);
            while let Some(capsule) = buffer.next_capsule().unwrap() {
                encode_capsule(&capsule, &mut got);
                count += 1;
            }
        }
        assert_eq!(count, sent.len());
        assert_eq!(got, wire);
        assert!(buffer.next_capsule().unwrap().is_none());
    }
}

#[test]
fn a_client_tunnel_is_no_wider_than_configured() {
    let fits = max_ip_packet_size(1200, 4).unwrap();
    assert_eq!(path_mtu(Some(1200), 4, 1500), fits);
    assert_eq!(path_mtu(Some(1200), 4, 1000), 1000);
    assert_eq!(path_mtu(Some(1), 4, 1500), 1500);
    assert_eq!(path_mtu(None, 4, 1500), 1500);
}

#[test]
fn an_idle_timeout_fits_a_varint() {
    assert_eq!(idle_timeout(30_000).unwrap(), 30_000);
    assert_eq!(idle_timeout(VARINT_MAX).unwrap(), VARINT_MAX);
    assert_eq!(
        idle_timeout(VARINT_MAX + 1).unwrap_err().message(),
        "configuration error: idle timeout out of range"
    );
}

#[test]
fn the_authorization_header_is_what_the_proxy_reads() {
    assert_eq!(authorization(&ClientAuth::NoAuth), None);
    assert_eq!(
        authorization(&ClientAuth::Bearer("s3cret".to_string())).unwrap(),
        "Bearer s3cret"
    );
    let basic = ClientAuth::Basic {
        user: "alice".to_string(),
        password: "wonder".to_string(),
    };
    assert_eq!(authorization(&basic).unwrap(), "Basic YWxpY2U6d29uZGVy");
}

#[test]
fn a_failed_path_lookup_says_what_was_asked() {
    let dst = ip("203.0.113.9");
    for (platform, not_run, failed) in [
        (
            Platform::Linux,
            "configuration error: failed to run ip route get: gone",
            "configuration error: ip route get 203.0.113.9 failed: no route",
        ),
        (
            Platform::MacOs,
            "configuration error: failed to run route get: gone",
            "configuration error: route -n get 203.0.113.9 failed: no route",
        ),
    ] {
        assert_eq!(platform.path_not_run("gone").message(), not_run);
        assert_eq!(platform.path_failed(dst, " no route\n").message(), failed);
    }
}

#[test]
fn only_the_path_to_everything_is_served() {
    let scope = request_scope("/.well-known/masque/ip/*/*/").unwrap();
    assert!(scope.target.is_none() && scope.ip_proto.is_none());
    for path in ["", "/", "/.well-known/masque/ip/192.0.2.1/6/"] {
        let e = request_scope(path).unwrap_err();
        assert_eq!(rejection_status(&e), 400);
        match e {
            ProxyError::InvalidRequest(t) => assert_eq!(t, format!("unsupported path {path}")),
            _ => panic!("a path is refused as an invalid request"),
        }
    }
}
