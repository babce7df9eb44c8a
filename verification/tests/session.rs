//! Sessions: authentication, addresses and configuration.

use base64::Engine;
use http::HeaderMap;
use straw::address_pool::AddressPool;
use straw::capsule::{AssignedAddress, RequestedAddress};
use straw::config::{
    AddressPoolSection, AuthSection, FileConfig, GivenFlags, LimitsSection, MetricsSection,
    ProxyConfig, QuicSection, RoutingSection, ServerSection, TunnelSection,
};
use straw::net::{IpAddr, IpNet, Ipv4Addr, Ipv4Net, Ipv6Addr, Ipv6Net, SocketAddr};
use straw::session::auth::{constant_time_eq, AuthMode, Authenticator};
use straw::session::{RequestScope, SessionId, SessionManager, TunnelSession};

fn ip(s: &str) -> IpAddr {
    match s.parse().unwrap() {
        core::net::IpAddr::V4(a) => IpAddr::V4(Ipv4Addr { bits: a.into() }),
        core::net::IpAddr::V6(a) => IpAddr::V6(Ipv6Addr { bits: a.into() }),
    }
}

fn addr(s: &str) -> SocketAddr {
    let a: core::net::SocketAddr = s.parse().unwrap();
    SocketAddr::new(ip(&a.ip().to_string()), a.port())
}

fn v4net(s: &str) -> Ipv4Net {
    let (a, len) = s.split_once('/').unwrap();
    match ip(a) {
        IpAddr::V4(a) => Ipv4Net::new(a, len.parse().unwrap()).unwrap(),
        IpAddr::V6(_) => panic!("not an IPv4 network"),
    }
}

fn v6net(s: &str) -> Ipv6Net {
    let (a, len) = s.split_once('/').unwrap();
    match ip(a) {
        IpAddr::V6(a) => Ipv6Net::new(a, len.parse().unwrap()).unwrap(),
        IpAddr::V4(_) => panic!("not an IPv6 network"),
    }
}

fn net(s: &str) -> IpNet {
    let (a, len) = s.split_once('/').unwrap();
    IpNet::new(ip(a), len.parse().unwrap()).unwrap()
}

fn pool() -> AddressPool {
    AddressPool::new(v4net("10.100.0.0/29"), None)
}

#[test]
fn sequential_allocation_skips_network_gateway_broadcast() {
    let mut p = pool();
    // /29 = .0 network, .1 gateway, .2-.6 usable, .7 broadcast.
    let a = p.allocate_v4(SessionId(0)).unwrap();
    assert_eq!(a.ip_address, ip("10.100.0.2"));
    let b = p.allocate_v4(SessionId(4)).unwrap();
    assert_eq!(b.ip_address, ip("10.100.0.3"));
}

#[test]
fn exhaustion_and_release() {
    let mut p = pool();
    let mut allocated = Vec::new();
    for i in 0..5 {
        allocated.push(p.allocate_v4(SessionId(i)).unwrap());
    }
    assert!(p.allocate_v4(SessionId(99)).is_none(), "pool exhausted");

    p.release(SessionId(0));
    let again = p.allocate_v4(SessionId(100)).unwrap();
    assert_eq!(again.ip_address, allocated[0].ip_address);
}

#[test]
fn specific_request_honored_once() {
    let mut p = pool();
    let req = RequestedAddress {
        request_id: 9,
        ip_version: 4,
        ip_address: ip("10.100.0.5"),
        prefix_length: 32,
    };
    let a = p.allocate_for_request(SessionId(0), &req).unwrap();
    assert_eq!(a.request_id, 9);
    assert_eq!(a.ip_address, ip("10.100.0.5"));

    // Second identical request cannot get the same address.
    let b = p.allocate_for_request(SessionId(4), &req).unwrap();
    assert_eq!(b.request_id, 9);
    assert_ne!(b.ip_address, a.ip_address);
}

#[test]
fn any_address_request_uses_pool_order() {
    let mut p = pool();
    let req = RequestedAddress {
        request_id: 3,
        ip_version: 4,
        ip_address: ip("0.0.0.0"),
        prefix_length: 32,
    };
    let a = p.allocate_for_request(SessionId(0), &req).unwrap();
    assert_eq!(a.request_id, 3);
    assert_eq!(a.ip_address, ip("10.100.0.2"));
}

#[test]
fn gateway_is_first_host() {
    let mut p = pool();
    assert_eq!(p.ipv4_gateway(), (Ipv4Addr::new(10, 100, 0, 1), 29));
}

#[test]
fn v6_allocation_when_configured() {
    let mut p = AddressPool::new(
        v4net("10.100.0.0/24"),
        Some(v6net("fd00:6d61:7371::/64")),
    );
    let a = p.allocate_v6(SessionId(0)).unwrap();
    assert_eq!(a.ip_version, 6);
    assert_eq!(a.prefix_length, 128);
    let b = p.allocate_v6(SessionId(0)).unwrap();
    assert_ne!(a.ip_address, b.ip_address);
}

#[test]
fn out_of_pool_specific_request_falls_back() {
    let mut p = pool();
    let req = RequestedAddress {
        request_id: 1,
        ip_version: 4,
        ip_address: ip("192.168.1.1"),
        prefix_length: 32,
    };
    let a = p.allocate_for_request(SessionId(0), &req).unwrap();
    // Falls back to the pool rather than assigning a foreign address.
    assert_eq!(a.ip_address, ip("10.100.0.2"));
}

fn scope() -> RequestScope {
    RequestScope {
        target: None,
        ip_proto: None,
    }
}

#[test]
fn session_id_compose_roundtrip() {
    let id = SessionId::compose(7, 44);
    assert_eq!(id.conn_seq(), 7);
    assert_eq!(id.stream_id(), 44);
}

#[test]
fn session_limit_enforced() {
    let mut mgr = SessionManager::new(1);
    mgr.insert(TunnelSession::new(SessionId(1), scope(), 0))
        .unwrap();
    assert!(
        mgr.insert(TunnelSession::new(SessionId(2), scope(), 0))
            .is_err()
    );
    mgr.remove(SessionId(1));
    assert!(
        mgr.insert(TunnelSession::new(SessionId(2), scope(), 0))
            .is_ok()
    );
}

#[test]
fn assigned_snapshot_tracks_updates() {
    let mut mgr = SessionManager::new(10);
    let id = SessionId(4);
    mgr.insert(TunnelSession::new(id, scope(), 0)).unwrap();
    assert!(mgr.assigned_snapshot(id).unwrap().is_empty());

    mgr.set_assigned(
        id,
        vec![AssignedAddress {
            request_id: 0,
            ip_version: 4,
            ip_address: ip("10.100.0.5"),
            prefix_length: 32,
        }],
    );
    assert_eq!(mgr.assigned_snapshot(id).unwrap().len(), 1);
}

fn headers(value: &str) -> HeaderMap {
    let mut h = HeaderMap::new();
    h.insert(http::header::AUTHORIZATION, value.parse().unwrap());
    h
}

#[test]
fn none_mode_admits_everyone() {
    let auth = Authenticator::default();
    assert!(auth.authenticate(&HeaderMap::new(), None).is_ok());
}

#[test]
fn bearer_token_checked() {
    let auth = Authenticator::new(
        AuthMode::Bearer,
        vec!["sekrit".into(), "other".into()],
        vec![],
    );
    assert_eq!(
        auth.authenticate(&headers("Bearer sekrit"), None)
            .unwrap()
            .method,
        "bearer"
    );
    assert!(auth.authenticate(&headers("Bearer other"), None).is_ok());
    assert!(auth.authenticate(&headers("Bearer wrong"), None).is_err());
    assert!(auth.authenticate(&headers("bearer sekrit"), None).is_ok());
    assert!(auth.authenticate(&HeaderMap::new(), None).is_err());
    assert!(
        auth.authenticate(&headers("Basic sekrit"), None).is_err(),
        "wrong scheme"
    );
}

#[test]
fn basic_credentials_checked() {
    let auth = Authenticator::new(
        AuthMode::Basic,
        vec![],
        vec![("alice".into(), "wonder".into())],
    );
    let encoded = base64::engine::general_purpose::STANDARD.encode("alice:wonder");
    let ctx = auth
        .authenticate(&headers(&format!("Basic {encoded}")), None)
        .unwrap();
    assert_eq!(ctx.method, "basic");
    assert_eq!(ctx.principal.as_deref(), Some("alice"));

    let bad = base64::engine::general_purpose::STANDARD.encode("alice:nope");
    assert!(
        auth.authenticate(&headers(&format!("Basic {bad}")), None)
            .is_err()
    );
    assert!(
        auth.authenticate(&headers("Basic not-base64!!!"), None)
            .is_err()
    );
}

#[test]
fn mtls_requires_certificate() {
    let auth = Authenticator::new(AuthMode::Mtls, vec![], vec![]);
    assert!(auth.authenticate(&HeaderMap::new(), None).is_err());

    let cert = vec![1u8, 2, 3];
    let ctx = auth.authenticate(&HeaderMap::new(), Some(&cert[..])).unwrap();
    assert_eq!(ctx.method, "mtls");
    assert_eq!(ctx.principal.as_deref().map(|p| p.len()), Some(64));
}

#[test]
fn constant_time_eq_basics() {
    assert!(constant_time_eq(b"abc", b"abc"));
    assert!(!constant_time_eq(b"abc", b"abd"));
    assert!(!constant_time_eq(b"abc", b"abcd"));
    assert!(constant_time_eq(b"", b""));
}

fn given_nothing() -> GivenFlags {
    GivenFlags {
        listen: false,
        cert: false,
        key: false,
        ipv4_pool: false,
        ipv6_pool: false,
        mtu: false,
        split_routes: false,
        accept_client_routes: false,
        tun: false,
        tun_name: false,
        idle_timeout_ms: false,
        max_sessions: false,
        auth_mode: false,
        auth_token: false,
        auth_basic: false,
        client_ca: false,
        session_idle_timeout_sec: false,
        max_packet_rate: false,
        max_byte_rate: false,
        metrics_listen: false,
        nat_interface: false,
        shutdown_grace_sec: false,
    }
}

fn sample_file() -> FileConfig {
    FileConfig {
        server: Some(ServerSection {
            listen_addr: Some(addr("0.0.0.0:443")),
            tls_cert: Some("/etc/straw/cert.pem".to_string()),
            tls_key: Some("/etc/straw/key.pem".to_string()),
            shutdown_grace_sec: Some(10),
        }),
        quic: Some(QuicSection {
            max_idle_timeout_ms: Some(60000),
        }),
        tunnel: Some(TunnelSection {
            enabled: Some(true),
            device_name: Some("masque0".to_string()),
            mtu: Some(1350),
        }),
        address_pool: Some(AddressPoolSection {
            ipv4_range: Some(v4net("10.200.0.0/16")),
            ipv6_range: Some(v6net("fd00:6d61:7371::/64")),
        }),
        routing: Some(RoutingSection {
            split_routes: Some(vec![net("192.168.0.0/16"), net("10.0.0.0/8")]),
            accept_client_routes: Some(true),
            nat_interface: Some("eth0".to_string()),
        }),
        auth: Some(AuthSection {
            mode: Some(AuthMode::Bearer),
            bearer_tokens: Some(vec!["alpha".to_string(), "beta".to_string()]),
            basic_credentials: None,
            client_ca: None,
        }),
        limits: Some(LimitsSection {
            max_sessions: Some(64),
            session_idle_timeout_sec: Some(120),
            max_packet_rate: Some(50000),
            max_byte_rate: None,
        }),
        metrics: Some(MetricsSection {
            listen: Some(addr("127.0.0.1:9090")),
        }),
    }
}

#[test]
fn toml_file_applies_all_sections() {
    let file = sample_file();
    let mut config = ProxyConfig::default();
    file.apply(&mut config);

    assert_eq!(config.listen, addr("0.0.0.0:443"));
    assert_eq!(config.cert.as_deref(), Some("/etc/straw/cert.pem"));
    assert_eq!(config.shutdown_grace_sec, 10);
    assert_eq!(config.idle_timeout_ms, 60_000);
    assert!(config.tun);
    assert_eq!(config.tun_name, "masque0");
    assert_eq!(config.mtu, 1350);
    assert_eq!(config.ipv4_pool, v4net("10.200.0.0/16"));
    assert!(config.ipv6_pool.is_some());
    assert_eq!(config.split_routes.len(), 2);
    assert!(config.accept_client_routes);
    assert_eq!(config.nat_interface.as_deref(), Some("eth0"));
    assert_eq!(config.auth_mode, AuthMode::Bearer);
    assert_eq!(config.auth_token, vec!["alpha", "beta"]);
    assert_eq!(config.max_sessions, 64);
    assert_eq!(config.session_idle_timeout_sec, 120);
    assert_eq!(config.max_packet_rate, 50_000);
    assert_eq!(config.metrics_listen, Some(addr("127.0.0.1:9090")));
    // Untouched keys keep their defaults.
    assert_eq!(config.max_byte_rate, 0);
    assert!(config.validate().is_ok());
}

#[test]
fn cli_overrides_file_overrides_default() {
    let mut cli = ProxyConfig::default();
    cli.mtu = 1420;
    let mut given = given_nothing();
    given.mtu = true;
    let config = ProxyConfig::resolve_from(Some(sample_file()), cli, &given);

    assert_eq!(config.mtu, 1420, "CLI beats file");
    assert_eq!(config.listen, addr("0.0.0.0:443"), "file beats default");
    assert_eq!(config.max_byte_rate, 0, "default survives");
}

#[test]
fn resolve_without_config_file_matches_plain_parse() {
    let mut cli = ProxyConfig::default();
    cli.listen = addr("127.0.0.1:9999");
    let mut given = given_nothing();
    given.listen = true;
    let resolved = ProxyConfig::resolve_from(None, cli, &given);
    assert_eq!(resolved.listen, addr("127.0.0.1:9999"));
    assert_eq!(resolved.mtu, ProxyConfig::default().mtu);
}

#[test]
fn mtu_validation() {
    let mut cfg = ProxyConfig::default();
    cfg.mtu = 1200;
    assert!(cfg.validate().is_err());
    cfg.mtu = 1280;
    assert!(cfg.validate().is_ok());
}
