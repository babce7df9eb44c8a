//! Server configuration: command-line flags plus an optional file.
//!
//! Precedence: CLI flag > file value > built-in default. The file is named
//! with `--config`; every section and key is optional.

use vstd::prelude::*;

use crate::error::ProxyError;
use crate::net::{IpAddr, IpNet, Ipv4Addr, Ipv4Net, Ipv6Net, SocketAddr};
use crate::session::auth::AuthMode;
use crate::text::{chars_of, decimal, find, find_char, lemma_find, push_decimal, quote, quoted, sub_chars, text_of};

verus! {

/// straw — RFC 9484 CONNECT-IP proxy server (IP over MASQUE).
#[derive(Debug)]
pub struct ProxyConfig {
    /// UDP address to listen on for QUIC.
    pub listen: SocketAddr,
    /// Path to a PEM certificate chain. Omit to use a self-signed certificate.
    pub cert: Option<String>,
    /// Path to the PEM private key for --cert.
    pub key: Option<String>,
    /// IPv4 range to assign client addresses from.
    pub ipv4_pool: Ipv4Net,
    /// Optional IPv6 range to assign client addresses from.
    pub ipv6_pool: Option<Ipv6Net>,
    /// Tunnel MTU. Must be >= 1280 to carry IPv6 (RFC 9484 §7.2, §10.1).
    pub mtu: u16,
    /// Split-tunnel mode: advertise (and forward for) only these prefixes. The
    /// client address pool is always advertised too. Empty = full tunnel.
    pub split_routes: Vec<IpNet>,
    /// Install routes advertised by clients (site-to-site VPN). Routes
    /// overlapping the address pool are always refused.
    pub accept_client_routes: bool,
    /// Create a kernel TUN device and forward tunneled packets to the
    /// network. Without it, only client<->client (hairpin) forwarding is
    /// available.
    pub tun: bool,
    /// Name for the TUN device (Linux only; macOS assigns utunN
    /// automatically).
    pub tun_name: String,
    /// QUIC max idle timeout in milliseconds.
    pub idle_timeout_ms: u64,
    /// Maximum number of concurrent sessions.
    pub max_sessions: usize,
    /// Authentication required from clients.
    pub auth_mode: AuthMode,
    /// Accepted bearer token(s) for --auth-mode bearer.
    pub auth_token: Vec<String>,
    /// Accepted user:password pair(s) for --auth-mode basic.
    pub auth_basic: Vec<String>,
    /// PEM CA bundle that client certificates must chain to (--auth-mode
    /// mtls).
    pub client_ca: Option<String>,
    /// Close sessions with no client activity for this many seconds; 0
    /// disables.
    pub session_idle_timeout_sec: u64,
    /// Per-session packet rate limit (packets/sec); 0 = unlimited.
    pub max_packet_rate: u64,
    /// Per-session byte rate limit (bytes/sec); 0 = unlimited.
    pub max_byte_rate: u64,
    /// Serve Prometheus metrics on this address.
    pub metrics_listen: Option<SocketAddr>,
    /// With --tun on Linux: masquerade pool traffic out this interface and
    /// enable IP forwarding.
    pub nat_interface: Option<String>,
    /// Seconds to let sessions drain after SIGINT/SIGTERM before closing.
    pub shutdown_grace_sec: u64,
}

/// Which flags were given on the command line.
#[derive(Debug, Clone, Copy, PartialEq, Eq, Structural)]
pub struct GivenFlags {
    pub listen: bool,
    pub cert: bool,
    pub key: bool,
    pub ipv4_pool: bool,
    pub ipv6_pool: bool,
    pub mtu: bool,
    pub split_routes: bool,
    pub accept_client_routes: bool,
    pub tun: bool,
    pub tun_name: bool,
    pub idle_timeout_ms: bool,
    pub max_sessions: bool,
    pub auth_mode: bool,
    pub auth_token: bool,
    pub auth_basic: bool,
    pub client_ca: bool,
    pub session_idle_timeout_sec: bool,
    pub max_packet_rate: bool,
    pub max_byte_rate: bool,
    pub metrics_listen: bool,
    pub nat_interface: bool,
    pub shutdown_grace_sec: bool,
}

/// The `--config` file. Every key is optional.
#[derive(Debug)]
pub struct FileConfig {
    pub server: Option<ServerSection>,
    pub quic: Option<QuicSection>,
    pub tunnel: Option<TunnelSection>,
    pub address_pool: Option<AddressPoolSection>,
    pub routing: Option<RoutingSection>,
    pub auth: Option<AuthSection>,
    pub limits: Option<LimitsSection>,
    pub metrics: Option<MetricsSection>,
}

/// The `[server]` section.
#[derive(Debug)]
pub struct ServerSection {
    pub listen_addr: Option<SocketAddr>,
    pub tls_cert: Option<String>,
    pub tls_key: Option<String>,
    pub shutdown_grace_sec: Option<u64>,
}

/// The `[quic]` section.
#[derive(Debug)]
pub struct QuicSection {
    pub max_idle_timeout_ms: Option<u64>,
}

/// The `[tunnel]` section.
#[derive(Debug)]
pub struct TunnelSection {
    pub mtu: Option<u16>,
    pub enabled: Option<bool>,
    pub device_name: Option<String>,
}

/// The `[address_pool]` section.
#[derive(Debug)]
pub struct AddressPoolSection {
    pub ipv4_range: Option<Ipv4Net>,
    pub ipv6_range: Option<Ipv6Net>,
}

/// The `[routing]` section.
#[derive(Debug)]
pub struct RoutingSection {
    pub split_routes: Option<Vec<IpNet>>,
    pub accept_client_routes: Option<bool>,
    pub nat_interface: Option<String>,
}

/// The `[auth]` section.
#[derive(Debug)]
pub struct AuthSection {
    pub mode: Option<AuthMode>,
    pub bearer_tokens: Option<Vec<String>>,
    pub basic_credentials: Option<Vec<String>>,
    pub client_ca: Option<String>,
}

/// The `[limits]` section.
#[derive(Debug)]
pub struct LimitsSection {
    pub max_sessions: Option<usize>,
    pub session_idle_timeout_sec: Option<u64>,
    pub max_packet_rate: Option<u64>,
    pub max_byte_rate: Option<u64>,
}

/// The `[metrics]` section.
#[derive(Debug)]
pub struct MetricsSection {
    pub listen: Option<SocketAddr>,
}

/// A value that is set, else the one below it.
pub open spec fn over<T>(value: Option<T>, below: T) -> T {
    match value {
        Some(v) => v,
        None => below,
    }
}

/// An optional value that is set, else the one below it.
pub open spec fn over_opt<T>(value: Option<T>, below: Option<T>) -> Option<T> {
    match value {
        Some(_) => value,
        None => below,
    }
}

fn put<T>(slot: &mut T, value: Option<T>)
    ensures
        *final(slot) == over(value, *old(slot)),
{
    match value {
        Some(v) => {
            *slot = v;
        },
        None => {},
    }
}

fn put_opt<T>(slot: &mut Option<T>, value: Option<T>)
    ensures
        *final(slot) == over_opt(value, *old(slot)),
{
    match value {
        Some(v) => {
            *slot = Some(v);
        },
        None => {},
    }
}

fn put_if<T>(slot: &mut T, given: bool, value: T)
    ensures
        *final(slot) == if given {
            value
        } else {
            *old(slot)
        },
{
    if given {
        *slot = value;
    }
}

impl FileConfig {
    /// What the file says about `listen`.
    pub open spec fn sets_listen(self) -> Option<SocketAddr> {
        match self.server {
            Some(s) => s.listen_addr,
            None => None,
        }
    }

    /// What the file says about `cert`.
    pub open spec fn sets_cert(self) -> Option<String> {
        match self.server {
            Some(s) => s.tls_cert,
            None => None,
        }
    }

    /// What the file says about `key`.
    pub open spec fn sets_key(self) -> Option<String> {
        match self.server {
            Some(s) => s.tls_key,
            None => None,
        }
    }

    /// What the file says about `ipv4_pool`.
    pub open spec fn sets_ipv4_pool(self) -> Option<Ipv4Net> {
        match self.address_pool {
            Some(s) => s.ipv4_range,
            None => None,
        }
    }

    /// What the file says about `ipv6_pool`.
    pub open spec fn sets_ipv6_pool(self) -> Option<Ipv6Net> {
        match self.address_pool {
            Some(s) => s.ipv6_range,
            None => None,
        }
    }

    /// What the file says about `mtu`.
    pub open spec fn sets_mtu(self) -> Option<u16> {
        match self.tunnel {
            Some(s) => s.mtu,
            None => None,
        }
    }

    /// What the file says about `split_routes`.
    pub open spec fn sets_split_routes(self) -> Option<Vec<IpNet>> {
        match self.routing {
            Some(s) => s.split_routes,
            None => None,
        }
    }

    /// What the file says about `accept_client_routes`.
    pub open spec fn sets_accept_client_routes(self) -> Option<bool> {
        match self.routing {
            Some(s) => s.accept_client_routes,
            None => None,
        }
    }

    /// What the file says about `tun`.
    pub open spec fn sets_tun(self) -> Option<bool> {
        match self.tunnel {
            Some(s) => s.enabled,
            None => None,
        }
    }

    /// What the file says about `tun_name`.
    pub open spec fn sets_tun_name(self) -> Option<String> {
        match self.tunnel {
            Some(s) => s.device_name,
            None => None,
        }
    }

    /// What the file says about `idle_timeout_ms`.
    pub open spec fn sets_idle_timeout_ms(self) -> Option<u64> {
        match self.quic {
            Some(s) => s.max_idle_timeout_ms,
            None => None,
        }
    }

    /// What the file says about `max_sessions`.
    pub open spec fn sets_max_sessions(self) -> Option<usize> {
        match self.limits {
            Some(s) => s.max_sessions,
            None => None,
        }
    }

    /// What the file says about `auth_mode`.
    pub open spec fn sets_auth_mode(self) -> Option<AuthMode> {
        match self.auth {
            Some(s) => s.mode,
            None => None,
        }
    }

    /// What the file says about `auth_token`.
    pub open spec fn sets_auth_token(self) -> Option<Vec<String>> {
        match self.auth {
            Some(s) => s.bearer_tokens,
            None => None,
        }
    }

    /// What the file says about `auth_basic`.
    pub open spec fn sets_auth_basic(self) -> Option<Vec<String>> {
        match self.auth {
            Some(s) => s.basic_credentials,
            None => None,
        }
    }

    /// What the file says about `client_ca`.
    pub open spec fn sets_client_ca(self) -> Option<String> {
        match self.auth {
            Some(s) => s.client_ca,
            None => None,
        }
    }

    /// What the file says about `session_idle_timeout_sec`.
    pub open spec fn sets_session_idle_timeout_sec(self) -> Option<u64> {
        match self.limits {
            Some(s) => s.session_idle_timeout_sec,
            None => None,
        }
    }

    /// What the file says about `max_packet_rate`.
    pub open spec fn sets_max_packet_rate(self) -> Option<u64> {
        match self.limits {
            Some(s) => s.max_packet_rate,
            None => None,
        }
    }

    /// What the file says about `max_byte_rate`.
    pub open spec fn sets_max_byte_rate(self) -> Option<u64> {
        match self.limits {
            Some(s) => s.max_byte_rate,
            None => None,
        }
    }

    /// What the file says about `metrics_listen`.
    pub open spec fn sets_metrics_listen(self) -> Option<SocketAddr> {
        match self.metrics {
            Some(s) => s.listen,
            None => None,
        }
    }

    /// What the file says about `nat_interface`.
    pub open spec fn sets_nat_interface(self) -> Option<String> {
        match self.routing {
            Some(s) => s.nat_interface,
            None => None,
        }
    }

    /// What the file says about `shutdown_grace_sec`.
    pub open spec fn sets_shutdown_grace_sec(self) -> Option<u64> {
        match self.server {
            Some(s) => s.shutdown_grace_sec,
            None => None,
        }
    }

    /// Puts the file's values over `config`.
    pub fn apply(self, config: &mut ProxyConfig)
        ensures
            *final(config) == file_over(self, *old(config)),
    {
        match self.server {
            Some(s) => {
                put(&mut config.listen, s.listen_addr);
                put_opt(&mut config.cert, s.tls_cert);
                put_opt(&mut config.key, s.tls_key);
                put(&mut config.shutdown_grace_sec, s.shutdown_grace_sec);
            },
            None => {},
        }
        match self.quic {
            Some(s) => {
                put(&mut config.idle_timeout_ms, s.max_idle_timeout_ms);
            },
            None => {},
        }
        match self.tunnel {
            Some(s) => {
                put(&mut config.mtu, s.mtu);
                put(&mut config.tun, s.enabled);
                put(&mut config.tun_name, s.device_name);
            },
            None => {},
        }
        match self.address_pool {
            Some(s) => {
                put(&mut config.ipv4_pool, s.ipv4_range);
                put_opt(&mut config.ipv6_pool, s.ipv6_range);
            },
            None => {},
        }
        match self.routing {
            Some(s) => {
                put(&mut config.split_routes, s.split_routes);
                put(&mut config.accept_client_routes, s.accept_client_routes);
                put_opt(&mut config.nat_interface, s.nat_interface);
            },
            None => {},
        }
        match self.auth {
            Some(s) => {
                put(&mut config.auth_mode, s.mode);
                put(&mut config.auth_token, s.bearer_tokens);
                put(&mut config.auth_basic, s.basic_credentials);
                put_opt(&mut config.client_ca, s.client_ca);
            },
            None => {},
        }
        match self.limits {
            Some(s) => {
                put(&mut config.max_sessions, s.max_sessions);
                put(&mut config.session_idle_timeout_sec, s.session_idle_timeout_sec);
                put(&mut config.max_packet_rate, s.max_packet_rate);
                put(&mut config.max_byte_rate, s.max_byte_rate);
            },
            None => {},
        }
        match self.metrics {
            Some(s) => {
                put_opt(&mut config.metrics_listen, s.listen);
            },
            None => {},
        }
    }
}

/// `below` with the file's values over it.
pub open spec fn file_over(file: FileConfig, below: ProxyConfig) -> ProxyConfig {
    ProxyConfig {
        listen: over(file.sets_listen(), below.listen),
        cert: over_opt(file.sets_cert(), below.cert),
        key: over_opt(file.sets_key(), below.key),
        ipv4_pool: over(file.sets_ipv4_pool(), below.ipv4_pool),
        ipv6_pool: over_opt(file.sets_ipv6_pool(), below.ipv6_pool),
        mtu: over(file.sets_mtu(), below.mtu),
        split_routes: over(file.sets_split_routes(), below.split_routes),
        accept_client_routes: over(file.sets_accept_client_routes(), below.accept_client_routes),
        tun: over(file.sets_tun(), below.tun),
        tun_name: over(file.sets_tun_name(), below.tun_name),
        idle_timeout_ms: over(file.sets_idle_timeout_ms(), below.idle_timeout_ms),
        max_sessions: over(file.sets_max_sessions(), below.max_sessions),
        auth_mode: over(file.sets_auth_mode(), below.auth_mode),
        auth_token: over(file.sets_auth_token(), below.auth_token),
        auth_basic: over(file.sets_auth_basic(), below.auth_basic),
        client_ca: over_opt(file.sets_client_ca(), below.client_ca),
        session_idle_timeout_sec: over(file.sets_session_idle_timeout_sec(), below.session_idle_timeout_sec),
        max_packet_rate: over(file.sets_max_packet_rate(), below.max_packet_rate),
        max_byte_rate: over(file.sets_max_byte_rate(), below.max_byte_rate),
        metrics_listen: over_opt(file.sets_metrics_listen(), below.metrics_listen),
        nat_interface: over_opt(file.sets_nat_interface(), below.nat_interface),
        shutdown_grace_sec: over(file.sets_shutdown_grace_sec(), below.shutdown_grace_sec),
    }
}

/// `below` with the given flags over it.
pub open spec fn flags_over(cli: ProxyConfig, given: GivenFlags, below: ProxyConfig) -> ProxyConfig {
    ProxyConfig {
        listen: if given.listen {
            cli.listen
        } else {
            below.listen
        },
        cert: if given.cert {
            cli.cert
        } else {
            below.cert
        },
        key: if given.key {
            cli.key
        } else {
            below.key
        },
        ipv4_pool: if given.ipv4_pool {
            cli.ipv4_pool
        } else {
            below.ipv4_pool
        },
        ipv6_pool: if given.ipv6_pool {
            cli.ipv6_pool
        } else {
            below.ipv6_pool
        },
        mtu: if given.mtu {
            cli.mtu
        } else {
            below.mtu
        },
        split_routes: if given.split_routes {
            cli.split_routes
        } else {
            below.split_routes
        },
        accept_client_routes: if given.accept_client_routes {
            cli.accept_client_routes
        } else {
            below.accept_client_routes
        },
        tun: if given.tun {
            cli.tun
        } else {
            below.tun
        },
        tun_name: if given.tun_name {
            cli.tun_name
        } else {
            below.tun_name
        },
        idle_timeout_ms: if given.idle_timeout_ms {
            cli.idle_timeout_ms
        } else {
            below.idle_timeout_ms
        },
        max_sessions: if given.max_sessions {
            cli.max_sessions
        } else {
            below.max_sessions
        },
        auth_mode: if given.auth_mode {
            cli.auth_mode
        } else {
            below.auth_mode
        },
        auth_token: if given.auth_token {
            cli.auth_token
        } else {
            below.auth_token
        },
        auth_basic: if given.auth_basic {
            cli.auth_basic
        } else {
            below.auth_basic
        },
        client_ca: if given.client_ca {
            cli.client_ca
        } else {
            below.client_ca
        },
        session_idle_timeout_sec: if given.session_idle_timeout_sec {
            cli.session_idle_timeout_sec
        } else {
            below.session_idle_timeout_sec
        },
        max_packet_rate: if given.max_packet_rate {
            cli.max_packet_rate
        } else {
            below.max_packet_rate
        },
        max_byte_rate: if given.max_byte_rate {
            cli.max_byte_rate
        } else {
            below.max_byte_rate
        },
        metrics_listen: if given.metrics_listen {
            cli.metrics_listen
        } else {
            below.metrics_listen
        },
        nat_interface: if given.nat_interface {
            cli.nat_interface
        } else {
            below.nat_interface
        },
        shutdown_grace_sec: if given.shutdown_grace_sec {
            cli.shutdown_grace_sec
        } else {
            below.shutdown_grace_sec
        },
    }
}

/// Copy every CLI-provided flag over the file/default values.
pub fn overlay_cli(config: &mut ProxyConfig, cli: ProxyConfig, given: &GivenFlags)
    ensures
        *final(config) == flags_over(cli, *given, *old(config)),
{
    put_if(&mut config.listen, given.listen, cli.listen);
    put_if(&mut config.cert, given.cert, cli.cert);
    put_if(&mut config.key, given.key, cli.key);
    put_if(&mut config.ipv4_pool, given.ipv4_pool, cli.ipv4_pool);
    put_if(&mut config.ipv6_pool, given.ipv6_pool, cli.ipv6_pool);
    put_if(&mut config.mtu, given.mtu, cli.mtu);
    put_if(&mut config.split_routes, given.split_routes, cli.split_routes);
    put_if(&mut config.accept_client_routes, given.accept_client_routes, cli.accept_client_routes);
    put_if(&mut config.tun, given.tun, cli.tun);
    put_if(&mut config.tun_name, given.tun_name, cli.tun_name);
    put_if(&mut config.idle_timeout_ms, given.idle_timeout_ms, cli.idle_timeout_ms);
    put_if(&mut config.max_sessions, given.max_sessions, cli.max_sessions);
    put_if(&mut config.auth_mode, given.auth_mode, cli.auth_mode);
    put_if(&mut config.auth_token, given.auth_token, cli.auth_token);
    put_if(&mut config.auth_basic, given.auth_basic, cli.auth_basic);
    put_if(&mut config.client_ca, given.client_ca, cli.client_ca);
    put_if(&mut config.session_idle_timeout_sec, given.session_idle_timeout_sec, cli.session_idle_timeout_sec);
    put_if(&mut config.max_packet_rate, given.max_packet_rate, cli.max_packet_rate);
    put_if(&mut config.max_byte_rate, given.max_byte_rate, cli.max_byte_rate);
    put_if(&mut config.metrics_listen, given.metrics_listen, cli.metrics_listen);
    put_if(&mut config.nat_interface, given.nat_interface, cli.nat_interface);
    put_if(&mut config.shutdown_grace_sec, given.shutdown_grace_sec, cli.shutdown_grace_sec);
}

/// The built-in values.
pub open spec fn is_default(c: ProxyConfig) -> bool {
    &&& c.listen == SocketAddr::at(IpAddr::V4(Ipv4Addr { bits: 0 }), 4433)
    &&& c.cert is None
    &&& c.key is None
    &&& c.ipv4_pool == (Ipv4Net { addr: Ipv4Addr { bits: 0x0a64_0000 }, prefix_len: 24 })
    &&& c.ipv6_pool is None
    &&& c.mtu == 1400
    &&& c.split_routes@.len() == 0
    &&& !c.accept_client_routes
    &&& !c.tun
    &&& c.tun_name@ == "straw0"@
    &&& c.idle_timeout_ms == 30_000
    &&& c.max_sessions == 1000
    &&& c.auth_mode == AuthMode::NoAuth
    &&& c.auth_token@.len() == 0
    &&& c.auth_basic@.len() == 0
    &&& c.client_ca is None
    &&& c.session_idle_timeout_sec == 300
    &&& c.max_packet_rate == 0
    &&& c.max_byte_rate == 0
    &&& c.metrics_listen is None
    &&& c.nat_interface is None
    &&& c.shutdown_grace_sec == 5
}

impl Default for ProxyConfig {
    fn default() -> (c: Self)
        ensures
            is_default(c),
    {
        ProxyConfig {
            listen: SocketAddr::new(IpAddr::V4(Ipv4Addr { bits: 0 }), 4433),
            cert: None,
            key: None,
            ipv4_pool: Ipv4Net { addr: Ipv4Addr { bits: 0x0a64_0000 }, prefix_len: 24 },
            ipv6_pool: None,
            mtu: 1400,
            split_routes: Vec::new(),
            accept_client_routes: false,
            tun: false,
            tun_name: String::from_str("straw0"),
            idle_timeout_ms: 30_000,
            max_sessions: 1000,
            auth_mode: AuthMode::NoAuth,
            auth_token: Vec::new(),
            auth_basic: Vec::new(),
            client_ca: None,
            session_idle_timeout_sec: 300,
            max_packet_rate: 0,
            max_byte_rate: 0,
            metrics_listen: None,
            nat_interface: None,
            shutdown_grace_sec: 5,
        }
    }
}

/// The first entry that names no user and password.
pub open spec fn first_bad_entry(entries: Seq<String>) -> Option<Seq<char>>
    decreases entries.len(),
{
    if entries.len() == 0 {
        None
    } else {
        match first_bad_entry(entries.drop_last()) {
            Some(e) => Some(e),
            None => {
                let e = entries.last()@;
                if find(e, ':') < e.len() {
                    None
                } else {
                    Some(e)
                }
            },
        }
    }
}

/// What [`ProxyConfig::validate`] objects to first.
pub open spec fn objection(c: ProxyConfig) -> Option<Seq<char>> {
    if c.mtu < 1280 {
        Some("MTU "@ + decimal(c.mtu as nat) + " is below the IPv6 minimum of 1280"@)
    } else if c.auth_mode == AuthMode::Bearer && c.auth_token@.len() == 0 {
        Some("--auth-mode bearer requires at least one --auth-token"@)
    } else if c.auth_mode == AuthMode::Basic && c.auth_basic@.len() == 0 {
        Some("--auth-mode basic requires at least one --auth-basic user:pass"@)
    } else if c.auth_mode == AuthMode::Mtls && c.client_ca is None {
        Some("--auth-mode mtls requires --client-ca"@)
    } else {
        match first_bad_entry(c.auth_basic@) {
            Some(e) => Some(bad_entry_text(e)),
            None => if c.nat_interface is Some && !c.tun {
                Some("--nat-interface requires --tun"@)
            } else {
                None
            },
        }
    }
}

/// What is said of an entry that names no user and password.
pub open spec fn bad_entry_text(e: Seq<char>) -> Seq<char> {
    "--auth-basic entry "@ + quoted(e) + " is not user:password"@
}

/// The configuration error that says `text`.
pub open spec fn config_error(e: ProxyError, text: Seq<char>) -> bool {
    e matches ProxyError::Config(t) && t@ == text
}

fn reject(text: &str) -> (r: Result<(), ProxyError>)
    ensures
        r matches Err(e) && config_error(e, text@),
{
    Err(ProxyError::Config(String::from_str(text)))
}

impl ProxyConfig {
    /// Validate cross-field constraints.
    pub fn validate(&self) -> (r: Result<(), ProxyError>)
        ensures
            match objection(*self) {
                None => r is Ok,
                Some(text) => r matches Err(e) && config_error(e, text),
            },
    {
        if self.mtu < 1280 {
            let mut s = String::from_str("MTU ");
            push_decimal(&mut s, self.mtu as u64);
            s.append(" is below the IPv6 minimum of 1280");
            return Err(ProxyError::Config(s));
        }
        match self.auth_mode {
            AuthMode::Bearer => {
                if self.auth_token.len() == 0 {
                    return reject("--auth-mode bearer requires at least one --auth-token");
                }
            },
            AuthMode::Basic => {
                if self.auth_basic.len() == 0 {
                    return reject("--auth-mode basic requires at least one --auth-basic user:pass");
                }
            },
            AuthMode::Mtls => {
                if self.client_ca.is_none() {
                    return reject("--auth-mode mtls requires --client-ca");
                }
            },
            AuthMode::NoAuth => {},
        }
        match self.basic_credentials() {
            Ok(_) => {},
            Err(e) => {
                return Err(e);
            },
        }
        if self.nat_interface.is_some() && !self.tun {
            return reject("--nat-interface requires --tun");
        }
        Ok(())
    }

    /// Parse --auth-basic entries into (user, password) pairs.
    pub fn basic_credentials(&self) -> (r: Result<Vec<(String, String)>, ProxyError>)
        ensures
            match first_bad_entry(self.auth_basic@) {
                Some(entry) => r matches Err(e) && config_error(e, bad_entry_text(entry)),
                None => r matches Ok(pairs) && pairs@.len() == self.auth_basic@.len() && forall|i: int|
                    0 <= i < pairs@.len() ==> splits_into(
                        self.auth_basic@[i]@,
                        #[trigger] pairs@[i],
                    ),
            },
    {
        let mut pairs: Vec<(String, String)> = Vec::new();
        let mut i: usize = 0;
        while i < self.auth_basic.len()
            invariant
                i <= self.auth_basic@.len(),
                pairs@.len() == i,
                first_bad_entry(self.auth_basic@.take(i as int)) is None,
                forall|j: int|
                    0 <= j < i ==> splits_into(self.auth_basic@[j]@, #[trigger] pairs@[j]),
            decreases self.auth_basic@.len() - i,
        {
            let entry = chars_of(self.auth_basic[i].as_str());
            let ghost upto = self.auth_basic@.take(i + 1);
            proof {
                assert(upto.drop_last() =~= self.auth_basic@.take(i as int));
                assert(upto.last() == self.auth_basic@[i as int]);
            }
            let k = find_char(entry.as_slice(), ':');
            if k >= entry.len() {
                proof {
                    lemma_first_bad_stays(self.auth_basic@, i + 1);
                }
                let q = quote(self.auth_basic[i].as_str());
                let mut s = String::from_str("--auth-basic entry ");
                s.append(q.as_str());
                s.append(" is not user:password");
                return Err(ProxyError::Config(s));
            }
            let user = sub_chars(entry.as_slice(), 0, k);
            let pass = sub_chars(entry.as_slice(), k + 1, entry.len());
            proof {
                assert(user@ =~= entry@.take(k as int));
                assert(pass@ =~= entry@.skip(k + 1));
            }
            pairs.push((text_of(user.as_slice()), text_of(pass.as_slice())));
            i = i + 1;
        }
        proof {
            assert(self.auth_basic@.take(i as int) =~= self.auth_basic@);
        }
        Ok(pairs)
    }

    /// The effective configuration: defaults, overlaid by the file, overlaid
    /// by the flags that were given.
    pub fn resolve_from(file: Option<FileConfig>, cli: ProxyConfig, given: &GivenFlags) -> (c: Self)
        ensures
            exists|base: ProxyConfig| #[trigger]
                is_default(base) && c == flags_over(
                    cli,
                    *given,
                    match file {
                        Some(f) => file_over(f, base),
                        None => base,
                    },
                ),
    {
        let mut config = ProxyConfig::default();
        match file {
            Some(f) => {
                f.apply(&mut config);
            },
            None => {},
        }
        overlay_cli(&mut config, cli, given);
        config
    }
}

/// An entry is the pair with a colon between.
pub open spec fn splits_into(entry: Seq<char>, pair: (String, String)) -> bool {
    let k = find(entry, ':') as int;
    k < entry.len() && pair.0@ == entry.take(k) && pair.1@ == entry.skip(k + 1)
}

/// Later entries do not change which bad one comes first.
proof fn lemma_first_bad_stays(entries: Seq<String>, n: int)
    requires
        0 <= n <= entries.len(),
        first_bad_entry(entries.take(n)) is Some,
    ensures
        first_bad_entry(entries) == first_bad_entry(entries.take(n)),
    decreases entries.len(),
{
    if n == entries.len() {
        assert(entries.take(n) =~= entries);
    } else {
        assert(entries.drop_last().take(n) =~= entries.take(n));
        lemma_first_bad_stays(entries.drop_last(), n);
    }
}

/// A flag beats the file, and the file beats the default. Each value of the
/// result is the first of the three that is there.
pub proof fn lemma_precedence(
    file: FileConfig,
    cli: ProxyConfig,
    given: GivenFlags,
    base: ProxyConfig,
)
    ensures
        ({
            let c = flags_over(cli, given, file_over(file, base));
            &&& given.listen ==> c.listen == cli.listen
            &&& !given.listen && file.sets_listen() is Some ==> c.listen == file.sets_listen()->0
            &&& !given.listen && file.sets_listen() is None ==> c.listen == base.listen
            &&& given.cert ==> c.cert == cli.cert
            &&& !given.cert && file.sets_cert() is Some ==> c.cert == file.sets_cert()
            &&& !given.cert && file.sets_cert() is None ==> c.cert == base.cert
            &&& given.key ==> c.key == cli.key
            &&& !given.key && file.sets_key() is Some ==> c.key == file.sets_key()
            &&& !given.key && file.sets_key() is None ==> c.key == base.key
            &&& given.ipv4_pool ==> c.ipv4_pool == cli.ipv4_pool
            &&& !given.ipv4_pool && file.sets_ipv4_pool() is Some ==> c.ipv4_pool == file.sets_ipv4_pool()->0
            &&& !given.ipv4_pool && file.sets_ipv4_pool() is None ==> c.ipv4_pool == base.ipv4_pool
            &&& given.ipv6_pool ==> c.ipv6_pool == cli.ipv6_pool
            &&& !given.ipv6_pool && file.sets_ipv6_pool() is Some ==> c.ipv6_pool == file.sets_ipv6_pool()
            &&& !given.ipv6_pool && file.sets_ipv6_pool() is None ==> c.ipv6_pool == base.ipv6_pool
            &&& given.mtu ==> c.mtu == cli.mtu
            &&& !given.mtu && file.sets_mtu() is Some ==> c.mtu == file.sets_mtu()->0
            &&& !given.mtu && file.sets_mtu() is None ==> c.mtu == base.mtu
            &&& given.split_routes ==> c.split_routes == cli.split_routes
            &&& !given.split_routes && file.sets_split_routes() is Some ==> c.split_routes == file.sets_split_routes()->0
            &&& !given.split_routes && file.sets_split_routes() is None ==> c.split_routes == base.split_routes
            &&& given.accept_client_routes ==> c.accept_client_routes == cli.accept_client_routes
            &&& !given.accept_client_routes && file.sets_accept_client_routes() is Some ==> c.accept_client_routes == file.sets_accept_client_routes()->0
            &&& !given.accept_client_routes && file.sets_accept_client_routes() is None ==> c.accept_client_routes == base.accept_client_routes
            &&& given.tun ==> c.tun == cli.tun
            &&& !given.tun && file.sets_tun() is Some ==> c.tun == file.sets_tun()->0
            &&& !given.tun && file.sets_tun() is None ==> c.tun == base.tun
            &&& given.tun_name ==> c.tun_name == cli.tun_name
            &&& !given.tun_name && file.sets_tun_name() is Some ==> c.tun_name == file.sets_tun_name()->0
            &&& !given.tun_name && file.sets_tun_name() is None ==> c.tun_name == base.tun_name
            &&& given.idle_timeout_ms ==> c.idle_timeout_ms == cli.idle_timeout_ms
            &&& !given.idle_timeout_ms && file.sets_idle_timeout_ms() is Some ==> c.idle_timeout_ms == file.sets_idle_timeout_ms()->0
            &&& !given.idle_timeout_ms && file.sets_idle_timeout_ms() is None ==> c.idle_timeout_ms == base.idle_timeout_ms
            &&& given.max_sessions ==> c.max_sessions == cli.max_sessions
            &&& !given.max_sessions && file.sets_max_sessions() is Some ==> c.max_sessions == file.sets_max_sessions()->0
            &&& !given.max_sessions && file.sets_max_sessions() is None ==> c.max_sessions == base.max_sessions
            &&& given.auth_mode ==> c.auth_mode == cli.auth_mode
            &&& !given.auth_mode && file.sets_auth_mode() is Some ==> c.auth_mode == file.sets_auth_mode()->0
            &&& !given.auth_mode && file.sets_auth_mode() is None ==> c.auth_mode == base.auth_mode
            &&& given.auth_token ==> c.auth_token == cli.auth_token
            &&& !given.auth_token && file.sets_auth_token() is Some ==> c.auth_token == file.sets_auth_token()->0
            &&& !given.auth_token && file.sets_auth_token() is None ==> c.auth_token == base.auth_token
            &&& given.auth_basic ==> c.auth_basic == cli.auth_basic
            &&& !given.auth_basic && file.sets_auth_basic() is Some ==> c.auth_basic == file.sets_auth_basic()->0
            &&& !given.auth_basic && file.sets_auth_basic() is None ==> c.auth_basic == base.auth_basic
            &&& given.client_ca ==> c.client_ca == cli.client_ca
            &&& !given.client_ca && file.sets_client_ca() is Some ==> c.client_ca == file.sets_client_ca()
            &&& !given.client_ca && file.sets_client_ca() is None ==> c.client_ca == base.client_ca
            &&& given.session_idle_timeout_sec ==> c.session_idle_timeout_sec == cli.session_idle_timeout_sec
            &&& !given.session_idle_timeout_sec && file.sets_session_idle_timeout_sec() is Some ==> c.session_idle_timeout_sec == file.sets_session_idle_timeout_sec()->0
            &&& !given.session_idle_timeout_sec && file.sets_session_idle_timeout_sec() is None ==> c.session_idle_timeout_sec == base.session_idle_timeout_sec
            &&& given.max_packet_rate ==> c.max_packet_rate == cli.max_packet_rate
            &&& !given.max_packet_rate && file.sets_max_packet_rate() is Some ==> c.max_packet_rate == file.sets_max_packet_rate()->0
            &&& !given.max_packet_rate && file.sets_max_packet_rate() is None ==> c.max_packet_rate == base.max_packet_rate
            &&& given.max_byte_rate ==> c.max_byte_rate == cli.max_byte_rate
            &&& !given.max_byte_rate && file.sets_max_byte_rate() is Some ==> c.max_byte_rate == file.sets_max_byte_rate()->0
            &&& !given.max_byte_rate && file.sets_max_byte_rate() is None ==> c.max_byte_rate == base.max_byte_rate
            &&& given.metrics_listen ==> c.metrics_listen == cli.metrics_listen
            &&& !given.metrics_listen && file.sets_metrics_listen() is Some ==> c.metrics_listen == file.sets_metrics_listen()
            &&& !given.metrics_listen && file.sets_metrics_listen() is None ==> c.metrics_listen == base.metrics_listen
            &&& given.nat_interface ==> c.nat_interface == cli.nat_interface
            &&& !given.nat_interface && file.sets_nat_interface() is Some ==> c.nat_interface == file.sets_nat_interface()
            &&& !given.nat_interface && file.sets_nat_interface() is None ==> c.nat_interface == base.nat_interface
            &&& given.shutdown_grace_sec ==> c.shutdown_grace_sec == cli.shutdown_grace_sec
            &&& !given.shutdown_grace_sec && file.sets_shutdown_grace_sec() is Some ==> c.shutdown_grace_sec == file.sets_shutdown_grace_sec()->0
            &&& !given.shutdown_grace_sec && file.sets_shutdown_grace_sec() is None ==> c.shutdown_grace_sec == base.shutdown_grace_sec
        }),
{
}

/// Every key of the file sets the value it is about, and a key that is not
/// there leaves it.
pub proof fn lemma_file_keys(file: FileConfig, below: ProxyConfig)
    ensures
        ({
            let c = file_over(file, below);
            &&& match file.server {
                Some(s) => s.listen_addr is Some ==> c.listen == s.listen_addr->0,
                None => c.listen == below.listen,
            }
            &&& file.server matches Some(s) ==> (s.listen_addr is None ==> c.listen == below.listen)
            &&& match file.server {
                Some(s) => s.tls_cert is Some ==> c.cert == s.tls_cert,
                None => c.cert == below.cert,
            }
            &&& file.server matches Some(s) ==> (s.tls_cert is None ==> c.cert == below.cert)
            &&& match file.server {
                Some(s) => s.tls_key is Some ==> c.key == s.tls_key,
                None => c.key == below.key,
            }
            &&& file.server matches Some(s) ==> (s.tls_key is None ==> c.key == below.key)
            &&& match file.address_pool {
                Some(s) => s.ipv4_range is Some ==> c.ipv4_pool == s.ipv4_range->0,
                None => c.ipv4_pool == below.ipv4_pool,
            }
            &&& file.address_pool matches Some(s) ==> (s.ipv4_range is None ==> c.ipv4_pool == below.ipv4_pool)
            &&& match file.address_pool {
                Some(s) => s.ipv6_range is Some ==> c.ipv6_pool == s.ipv6_range,
                None => c.ipv6_pool == below.ipv6_pool,
            }
            &&& file.address_pool matches Some(s) ==> (s.ipv6_range is None ==> c.ipv6_pool == below.ipv6_pool)
            &&& match file.tunnel {
                Some(s) => s.mtu is Some ==> c.mtu == s.mtu->0,
                None => c.mtu == below.mtu,
            }
            &&& file.tunnel matches Some(s) ==> (s.mtu is None ==> c.mtu == below.mtu)
            &&& match file.routing {
                Some(s) => s.split_routes is Some ==> c.split_routes == s.split_routes->0,
                None => c.split_routes == below.split_routes,
            }
            &&& file.routing matches Some(s) ==> (s.split_routes is None ==> c.split_routes == below.split_routes)
            &&& match file.routing {
                Some(s) => s.accept_client_routes is Some ==> c.accept_client_routes == s.accept_client_routes->0,
                None => c.accept_client_routes == below.accept_client_routes,
            }
            &&& file.routing matches Some(s) ==> (s.accept_client_routes is None ==> c.accept_client_routes == below.accept_client_routes)
            &&& match file.tunnel {
                Some(s) => s.enabled is Some ==> c.tun == s.enabled->0,
                None => c.tun == below.tun,
            }
            &&& file.tunnel matches Some(s) ==> (s.enabled is None ==> c.tun == below.tun)
            &&& match file.tunnel {
                Some(s) => s.device_name is Some ==> c.tun_name == s.device_name->0,
                None => c.tun_name == below.tun_name,
            }
            &&& file.tunnel matches Some(s) ==> (s.device_name is None ==> c.tun_name == below.tun_name)
            &&& match file.quic {
                Some(s) => s.max_idle_timeout_ms is Some ==> c.idle_timeout_ms == s.max_idle_timeout_ms->0,
                None => c.idle_timeout_ms == below.idle_timeout_ms,
            }
            &&& file.quic matches Some(s) ==> (s.max_idle_timeout_ms is None ==> c.idle_timeout_ms == below.idle_timeout_ms)
            &&& match file.limits {
                Some(s) => s.max_sessions is Some ==> c.max_sessions == s.max_sessions->0,
                None => c.max_sessions == below.max_sessions,
            }
            &&& file.limits matches Some(s) ==> (s.max_sessions is None ==> c.max_sessions == below.max_sessions)
            &&& match file.auth {
                Some(s) => s.mode is Some ==> c.auth_mode == s.mode->0,
                None => c.auth_mode == below.auth_mode,
            }
            &&& file.auth matches Some(s) ==> (s.mode is None ==> c.auth_mode == below.auth_mode)
            &&& match file.auth {
                Some(s) => s.bearer_tokens is Some ==> c.auth_token == s.bearer_tokens->0,
                None => c.auth_token == below.auth_token,
            }
            &&& file.auth matches Some(s) ==> (s.bearer_tokens is None ==> c.auth_token == below.auth_token)
            &&& match file.auth {
                Some(s) => s.basic_credentials is Some ==> c.auth_basic == s.basic_credentials->0,
                None => c.auth_basic == below.auth_basic,
            }
            &&& file.auth matches Some(s) ==> (s.basic_credentials is None ==> c.auth_basic == below.auth_basic)
            &&& match file.auth {
                Some(s) => s.client_ca is Some ==> c.client_ca == s.client_ca,
                None => c.client_ca == below.client_ca,
            }
            &&& file.auth matches Some(s) ==> (s.client_ca is None ==> c.client_ca == below.client_ca)
            &&& match file.limits {
                Some(s) => s.session_idle_timeout_sec is Some ==> c.session_idle_timeout_sec == s.session_idle_timeout_sec->0,
                None => c.session_idle_timeout_sec == below.session_idle_timeout_sec,
            }
            &&& file.limits matches Some(s) ==> (s.session_idle_timeout_sec is None ==> c.session_idle_timeout_sec == below.session_idle_timeout_sec)
            &&& match file.limits {
                Some(s) => s.max_packet_rate is Some ==> c.max_packet_rate == s.max_packet_rate->0,
                None => c.max_packet_rate == below.max_packet_rate,
            }
            &&& file.limits matches Some(s) ==> (s.max_packet_rate is None ==> c.max_packet_rate == below.max_packet_rate)
            &&& match file.limits {
                Some(s) => s.max_byte_rate is Some ==> c.max_byte_rate == s.max_byte_rate->0,
                None => c.max_byte_rate == below.max_byte_rate,
            }
            &&& file.limits matches Some(s) ==> (s.max_byte_rate is None ==> c.max_byte_rate == below.max_byte_rate)
            &&& match file.metrics {
                Some(s) => s.listen is Some ==> c.metrics_listen == s.listen,
                None => c.metrics_listen == below.metrics_listen,
            }
            &&& file.metrics matches Some(s) ==> (s.listen is None ==> c.metrics_listen == below.metrics_listen)
            &&& match file.routing {
                Some(s) => s.nat_interface is Some ==> c.nat_interface == s.nat_interface,
                None => c.nat_interface == below.nat_interface,
            }
            &&& file.routing matches Some(s) ==> (s.nat_interface is None ==> c.nat_interface == below.nat_interface)
            &&& match file.server {
                Some(s) => s.shutdown_grace_sec is Some ==> c.shutdown_grace_sec == s.shutdown_grace_sec->0,
                None => c.shutdown_grace_sec == below.shutdown_grace_sec,
            }
            &&& file.server matches Some(s) ==> (s.shutdown_grace_sec is None ==> c.shutdown_grace_sec == below.shutdown_grace_sec)
        }),
{
}

/// A configuration is accepted exactly if its MTU is at least 1280, its way of
/// authenticating has what it needs, every user entry holds a colon, and
/// masquerading comes with a TUN device.
pub proof fn lemma_accepted(c: ProxyConfig)
    ensures
        objection(c) is None <==> {
            &&& c.mtu >= 1280
            &&& match c.auth_mode {
                AuthMode::NoAuth => true,
                AuthMode::Bearer => c.auth_token@.len() > 0,
                AuthMode::Basic => c.auth_basic@.len() > 0,
                AuthMode::Mtls => c.client_ca is Some,
            }
            &&& forall|i: int|
                0 <= i < c.auth_basic@.len() ==> (#[trigger] c.auth_basic@[i])@.contains(':')
            &&& c.nat_interface is Some ==> c.tun
        },
{
    lemma_bad_entry(c.auth_basic@);
}

/// The entry complained of is the first without a colon; there is a complaint
/// exactly if there is such an entry.
pub proof fn lemma_bad_entry(entries: Seq<String>)
    ensures
        match first_bad_entry(entries) {
            None => forall|i: int|
                0 <= i < entries.len() ==> (#[trigger] entries[i])@.contains(':'),
            Some(e) => exists|i: int|
                {
                    &&& 0 <= i < entries.len()
                    &&& (#[trigger] entries[i])@ == e
                    &&& !e.contains(':')
                    &&& forall|j: int| 0 <= j < i ==> (#[trigger] entries[j])@.contains(':')
                },
        },
    decreases entries.len(),
{
    if entries.len() > 0 {
        let d = entries.drop_last();
        let e = entries.last()@;
        lemma_bad_entry(d);
        lemma_find(e, ':');
        assert(forall|j: int| 0 <= j < d.len() ==> #[trigger] d[j] == entries[j]);
        assert(find(e, ':') < e.len() <==> e.contains(':'));
        match first_bad_entry(d) {
            Some(b) => {
                let i = choose|i: int|
                    {
                        &&& 0 <= i < d.len()
                        &&& (#[trigger] d[i])@ == b
                        &&& !b.contains(':')
                        &&& forall|j: int| 0 <= j < i ==> (#[trigger] d[j])@.contains(':')
                    };
                assert(entries[i]@ == b);
                assert forall|j: int| 0 <= j < i implies (#[trigger] entries[j])@.contains(':') by {
                    assert(d[j] == entries[j]);
                }
            },
            None => {
                let n = entries.len() - 1;
                assert(entries[n]@ == e);
                assert forall|j: int| 0 <= j < n implies (#[trigger] entries[j])@.contains(':') by {
                    assert(d[j] == entries[j]);
                }
            },
        }
    }
}

/// An entry splits at its first colon: the user holds none, and the two with a
/// colon between are the entry.
pub proof fn lemma_entry_split(entry: Seq<char>, pair: (String, String))
    requires
        splits_into(entry, pair),
    ensures
        !pair.0@.contains(':'),
        entry == pair.0@ + seq![':'] + pair.1@,
{
    lemma_find(entry, ':');
}

} // verus!
