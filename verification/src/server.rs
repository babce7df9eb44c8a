//! The proxy's shared state, and what becomes of each datagram that arrives
//! on a connection.

use bytes::Bytes;
use vstd::prelude::*;

use crate::address_pool::AddressPool;
use crate::buf::{frozen, frozen_slice};
use crate::capsule::codec::{read_varint, varint_at, varint_bytes, VARINT_MAX};
use crate::capsule::AssignedAddress;
use crate::config::{bad_entry_text, config_error, first_bad_entry, splits_into, ProxyConfig};
use crate::datagram::{decode_quic_datagram, quic_datagram_at, CONTEXT_ID_IP_PACKET};
use crate::error::{ForwardingError, ProxyError};
use crate::forwarding::icmp::IcmpSource;
use crate::forwarding::limiter::RateLimits;
use crate::forwarding::router::{no_addrs, RouteEntry};
use crate::forwarding::tun::TunConfig;
use crate::forwarding::{
    conclude, conclusion, forwarded, no_sessions, Forwarded, ForwardingEngine, Sent, Verdict,
};
use crate::session::auth::{AuthMode, Authenticator};
use crate::session::{
    no_snapshots, no_tunnels, snapshot_at, touched, SessionId, SessionManager,
};
use crate::text::{copy_strings, is_text, texts};

verus! {

/// Shared state handed to every connection and session task.
#[derive(Debug)]
pub struct ProxyContext {
    pub config: ProxyConfig,
    pub sessions: SessionManager,
    pub pool: AddressPool,
    pub engine: ForwardingEngine,
    pub auth: Authenticator,
}

impl ProxyContext {
    /// Everything but the session table is as in `other`.
    pub open spec fn same_but_sessions(self, other: ProxyContext) -> bool {
        &&& self.config == other.config
        &&& self.engine == other.engine
        &&& self.pool == other.pool
        &&& self.auth == other.auth
    }

    /// Everything but the forwarding engine is as in `other`.
    pub open spec fn same_but_engine(self, other: ProxyContext) -> bool {
        &&& self.config == other.config
        &&& self.sessions == other.sessions
        &&& self.pool == other.pool
        &&& self.auth == other.auth
    }
}

/// What a received datagram is.
#[derive(Debug)]
pub enum Received {
    /// Malformed, of an unknown context, or for an unknown session: dropped
    /// silently (RFC 9297 §4).
    Ignored,
    /// An IP packet of a session, and what is to become of it.
    Packet { session: SessionId, verdict: Verdict },
}

/// The session and the packet that a datagram carries.
pub open spec fn datagram_packet(conn_seq: u64, wire: Seq<u8>) -> Option<(SessionId, Seq<u8>)> {
    match quic_datagram_at(wire) {
        Some((qsid, context_id, payload)) => if context_id == CONTEXT_ID_IP_PACKET {
            Some((SessionId::spec_compose(conn_seq, (qsid * 4) as u64), payload))
        } else {
            None
        },
        None => None,
    }
}

/// The session whose stream a datagram names, and where the HTTP Datagram
/// behind the Quarter Stream ID starts.
pub fn peek_session(conn_seq: u64, wire: &Bytes) -> (r: Option<(SessionId, usize)>)
    ensures
        match varint_at(frozen(*wire)) {
            Some((qsid, n)) => r matches Some(p) && p.0 == SessionId::spec_compose(
                conn_seq,
                (qsid * 4) as u64,
            ) && p.1 == n,
            None => r is None,
        },
{
    let whole: &[u8] = frozen_slice(wire);
    let total: usize = whole.len();
    let mut cursor: &[u8] = whole;
    match read_varint(&mut cursor) {
        Ok(qsid) => Some((SessionId::compose(conn_seq, qsid * 4), total - cursor.len())),
        Err(_) => None,
    }
}

/// Feed one QUIC DATAGRAM of a connection to the forwarding engine.
///
/// Wire format (RFC 9297 §2.1 + RFC 9484 §6):
/// `Quarter Stream ID (i) | Context ID (i) | IP packet`.
pub fn receive_datagram(ctx: &mut ProxyContext, conn_seq: u64, wire: &Bytes) -> (r: Received)
    ensures
        final(ctx).same_but_engine(*old(ctx)),
        match datagram_packet(conn_seq, frozen(*wire)) {
            None => r is Ignored && final(ctx).engine == old(ctx).engine,
            Some((session, packet)) => match snapshot_at(old(ctx).sessions.snapshots(), session.0) {
                None => r is Ignored && final(ctx).engine == old(ctx).engine,
                Some(assigned) => {
                    &&& r matches Received::Packet { session: s, verdict }
                    &&& s == session
                    &&& forwarded(
                        old(ctx).engine,
                        final(ctx).engine,
                        session,
                        assigned,
                        packet,
                        verdict@,
                    )
                },
            },
        },
{
    let (qsid, datagram) = match decode_quic_datagram(wire) {
        Ok(d) => d,
        Err(_) => {
            return Received::Ignored;
        },
    };
    // Unknown context IDs MUST be silently dropped (RFC 9297 §4).
    if datagram.context_id != CONTEXT_ID_IP_PACKET {
        return Received::Ignored;
    }
    let session = SessionId::compose(conn_seq, qsid * 4);
    let assigned = match ctx.sessions.assigned_snapshot(session) {
        Some(assigned) => assigned,
        None => {
            return Received::Ignored;
        },
    };
    let held: &[AssignedAddress] = assigned.as_slice();
    let packet: &[u8] = frozen_slice(&datagram.payload);
    let verdict = ctx.engine.forward_from_client(session, held, packet);
    proof {
        assert(snapshot_at(ctx.sessions.snapshots(), session.0) == Some(held@));
        assert(datagram_packet(conn_seq, frozen(*wire)) == Some((session, packet@)));
    }
    Received::Packet { session, verdict }
}

/// What came of a packet, given what its next hop did with it. Activity
/// counts only where the packet went on.
pub fn settle_at(
    ctx: &mut ProxyContext,
    session: SessionId,
    verdict: &Verdict,
    sent: Sent,
    now: u64,
) -> (r: Result<Forwarded, ForwardingError>)
    ensures
        r == conclusion(verdict@, sent),
        final(ctx).same_but_sessions(*old(ctx)),
        final(ctx).sessions.snapshots() == old(ctx).sessions.snapshots(),
        final(ctx).sessions.limit() == old(ctx).sessions.limit(),
        final(ctx).sessions.sessions() == (if r is Ok {
            touched(old(ctx).sessions.sessions(), session, now)
        } else {
            old(ctx).sessions.sessions()
        }),
{
    let r = conclude(verdict, sent);
    if r.is_ok() {
        ctx.sessions.touch_at(session, now);
    }
    r
}

/// The protocol token of CONNECT-UDP (RFC 9298).
pub const CONNECT_UDP_PROTOCOL: &'static str = "connect-udp";

/// Who serves a request.
#[derive(Debug, Clone, Copy, PartialEq, Eq, Structural)]
pub enum Handler {
    /// The CONNECT-UDP bind handler.
    UdpBind,
    /// The CONNECT-IP handler. It validates and rejects everything else too.
    ConnectIp,
}

/// Who serves a request with this `:protocol`.
pub open spec fn handler_of(protocol: Option<&str>) -> Handler {
    if protocol is Some && protocol->0@ == CONNECT_UDP_PROTOCOL@ {
        Handler::UdpBind
    } else {
        Handler::ConnectIp
    }
}

/// Dispatch a request by its `:protocol`.
pub fn dispatch(protocol: Option<&str>) -> (h: Handler)
    ensures
        h == handler_of(protocol),
{
    match protocol {
        Some(p) => if is_text(p, CONNECT_UDP_PROTOCOL) {
            Handler::UdpBind
        } else {
            Handler::ConnectIp
        },
        None => Handler::ConnectIp,
    }
}

/// What happened on an HTTP/3 connection.
#[derive(Debug)]
pub enum ConnectionEvent<'a> {
    /// A request arrived, with this `:protocol`.
    Request(Option<&'a str>),
    /// The proxy is shutting down.
    Shutdown,
    /// The client closed the connection cleanly.
    Closed,
    /// The connection failed.
    Failed(ProxyError),
}

/// What the proxy does about it.
#[derive(Debug)]
pub enum ConnectionStep {
    /// Serve the request beside the connection, and go on accepting.
    Serve(Handler),
    /// Send GOAWAY: no new requests, existing tunnels continue until the grace
    /// period closes the endpoint.
    Goaway,
    /// The connection is over.
    End(Result<(), ProxyError>),
}

/// Serve a connection.
pub fn on_connection(event: ConnectionEvent<'_>) -> (s: ConnectionStep)
    ensures
        match event {
            ConnectionEvent::Request(protocol) => s == ConnectionStep::Serve(
                handler_of(protocol),
            ),
            ConnectionEvent::Shutdown => s is Goaway,
            ConnectionEvent::Closed => s matches ConnectionStep::End(r) && r is Ok,
            ConnectionEvent::Failed(e) => s == ConnectionStep::End(Err::<(), ProxyError>(e)),
        },
{
    match event {
        ConnectionEvent::Request(protocol) => ConnectionStep::Serve(dispatch(protocol)),
        ConnectionEvent::Shutdown => ConnectionStep::Goaway,
        ConnectionEvent::Closed => ConnectionStep::End(Ok(())),
        ConnectionEvent::Failed(e) => ConnectionStep::End(Err(e)),
    }
}

/// Bytes of datagrams that a connection buffers, each way: a burst of
/// MTU-sized packets.
pub fn datagram_buffer(mtu: u16) -> (n: usize)
    ensures
        n == mtu * 512,
{
    mtu as usize * 512
}

/// Where the proxy's certificate comes from.
#[derive(Debug)]
pub enum CertSource {
    /// A PEM certificate chain and private key on disk.
    Files { cert: String, key: String },
    /// A fresh self-signed certificate, for development.
    SelfSigned,
}

/// The configured certificate, or a self-signed one unless both halves are
/// there.
pub fn cert_source(config: &ProxyConfig) -> (c: CertSource)
    ensures
        match (config.cert, config.key) {
            (Some(cert), Some(key)) => c matches CertSource::Files { cert: x, key: y } && x@
                == cert@ && y@ == key@,
            _ => c is SelfSigned,
        },
{
    match (&config.cert, &config.key) {
        (Some(cert), Some(key)) => CertSource::Files { cert: cert.clone(), key: key.clone() },
        _ => CertSource::SelfSigned,
    }
}

/// The CA that client certificates are verified against: mutual TLS needs
/// one.
pub fn client_ca(config: &ProxyConfig) -> (ca: Option<String>)
    ensures
        match (config.auth_mode, config.client_ca) {
            (AuthMode::Mtls, Some(path)) => ca matches Some(p) && p@ == path@,
            _ => ca is None,
        },
{
    match (config.auth_mode, &config.client_ca) {
        (AuthMode::Mtls, Some(path)) => Some(path.clone()),
        _ => None,
    }
}

/// The pools leave room for a gateway: the first host of each network.
pub open spec fn has_gateways(config: ProxyConfig) -> bool {
    &&& config.ipv4_pool.spec_network() < u32::MAX
    &&& config.ipv6_pool matches Some(net) ==> net.spec_network() < u128::MAX
}

/// The proxy's state before its first session.
pub open spec fn is_fresh(ctx: ProxyContext, config: ProxyConfig) -> bool {
    &&& ctx.config == config
    &&& ctx.sessions.sessions() == no_tunnels()
    &&& ctx.sessions.snapshots() == no_snapshots()
    &&& ctx.sessions.limit() == config.max_sessions
    &&& ctx.pool.wf()
    &&& ctx.pool.net4() == config.ipv4_pool
    &&& ctx.pool.net6() == config.ipv6_pool
    &&& ctx.pool.owners() == no_addrs()
    &&& ctx.engine.states() == no_sessions()
    &&& ctx.engine.table().clients() == no_addrs()
    &&& ctx.engine.table().prefix_routes() == Seq::<RouteEntry>::empty()
    &&& ctx.engine.tun() == config.tun
    &&& ctx.engine.spec_mtu() == config.mtu
    &&& ctx.engine.error_source().v4.bits == config.ipv4_pool.spec_network() + 1
    &&& match config.ipv6_pool {
        Some(net) => ctx.engine.error_source().v6 matches Some(a) && a.bits == net.spec_network()
            + 1,
        None => ctx.engine.error_source().v6 is None,
    }
    &&& ctx.engine.spec_limits() == (RateLimits {
        packets_per_sec: config.max_packet_rate,
        bytes_per_sec: config.max_byte_rate,
    })
    &&& ctx.auth.spec_mode() == config.auth_mode
    &&& texts(ctx.auth.tokens()) == texts(config.auth_token@)
    &&& ctx.auth.credentials().len() == config.auth_basic@.len()
    &&& forall|i: int|
        0 <= i < config.auth_basic@.len() ==> splits_into(
            config.auth_basic@[i]@,
            #[trigger] ctx.auth.credentials()[i],
        )
}

/// Assemble the proxy's shared state from its configuration: the
/// authenticator, the address pool, the forwarding engine (whose ICMP errors
/// come from the gateways) and the session table.
pub fn build_context(config: ProxyConfig) -> (r: Result<ProxyContext, ProxyError>)
    requires
        has_gateways(config),
    ensures
        match first_bad_entry(config.auth_basic@) {
            Some(entry) => r matches Err(e) && config_error(e, bad_entry_text(entry)),
            None => r matches Ok(ctx) && is_fresh(ctx, config),
        },
{
    let credentials = match config.basic_credentials() {
        Ok(c) => c,
        Err(e) => {
            return Err(e);
        },
    };
    let auth = Authenticator::new(
        config.auth_mode,
        copy_strings(&config.auth_token),
        credentials,
    );
    let pool = AddressPool::new(config.ipv4_pool, config.ipv6_pool);
    let v6 = match pool.ipv6_gateway() {
        Some((addr, _)) => Some(addr),
        None => None,
    };
    let icmp_source = IcmpSource { v4: pool.ipv4_gateway().0, v6 };
    let limits = RateLimits {
        packets_per_sec: config.max_packet_rate,
        bytes_per_sec: config.max_byte_rate,
    };
    let engine = ForwardingEngine::new(config.tun, config.mtu, icmp_source, limits);
    let sessions = SessionManager::new(config.max_sessions);
    Ok(ProxyContext { config, sessions, pool, engine, auth })
}

/// The TUN device of a proxy: its name and MTU, with the gateways as its
/// addresses.
pub fn tun_config(ctx: &ProxyContext) -> (t: TunConfig)
    requires
        ctx.pool.net4().spec_network() < u32::MAX,
        ctx.pool.net6() matches Some(net) ==> net.spec_network() < u128::MAX,
    ensures
        t.name@ == ctx.config.tun_name@,
        t.mtu == ctx.config.mtu,
        t.ipv4 matches Some(g) && g.0.bits == ctx.pool.net4().spec_network() + 1 && g.1
            == ctx.pool.net4().prefix_len,
        match ctx.pool.net6() {
            Some(net) => t.ipv6 matches Some(g) && g.0.bits == net.spec_network() + 1 && g.1
                == net.prefix_len,
            None => t.ipv6 is None,
        },
{
    TunConfig {
        name: ctx.config.tun_name.clone(),
        mtu: ctx.config.mtu,
        ipv4: Some(ctx.pool.ipv4_gateway()),
        ipv6: ctx.pool.ipv6_gateway(),
    }
}

/// The idle timeout that a connection can announce, in milliseconds: it must
/// fit a variable-length integer.
pub fn idle_timeout(ms: u64) -> (r: Result<u64, ProxyError>)
    ensures
        if ms <= VARINT_MAX {
            r == Ok::<u64, ProxyError>(ms)
        } else {
            r matches Err(e) && config_error(e, "idle timeout out of range"@)
        },
{
    if ms <= VARINT_MAX {
        Ok(ms)
    } else {
        Err(ProxyError::Config(String::from_str("idle timeout out of range")))
    }
}

/// How often idle sessions are looked for, in milliseconds: twice per
/// timeout, at least every 30 seconds and at most four times a second. A
/// timeout of zero disables reaping.
pub fn reaper_interval(timeout_sec: u64) -> (ms: Option<u64>)
    ensures
        ms == (if timeout_sec == 0 {
            None::<u64>
        } else if timeout_sec * 500 > 30_000 {
            Some(30_000u64)
        } else if timeout_sec * 500 < 250 {
            Some(250u64)
        } else {
            Some((timeout_sec * 500) as u64)
        }),
{
    if timeout_sec == 0 {
        None
    } else if timeout_sec > 60 {
        Some(30_000)
    } else {
        Some(timeout_sec * 500)
    }
}

/// A datagram of the tunnel on a stream, in its context for IP packets, is the
/// packet of that stream's session; in any other context it is none.
pub proof fn lemma_datagram_packet(conn_seq: u64, qsid: u64, context_id: u64, packet: Seq<u8>)
    requires
        qsid <= VARINT_MAX,
        context_id <= VARINT_MAX,
    ensures
        datagram_packet(
            conn_seq,
            varint_bytes(qsid) + varint_bytes(context_id) + packet,
        ) == if context_id == 0 {
            Some((SessionId::spec_compose(conn_seq, (qsid * 4) as u64), packet))
        } else {
            None
        },
{
    crate::datagram::lemma_datagram_layout(qsid, context_id, packet);
    crate::datagram::lemma_quic_datagram_roundtrip(qsid, context_id, packet);
}

/// Requests of the protocol connect-udp are bound to a UDP socket; all others
/// are taken for a tunnel.
pub proof fn lemma_handler(protocol: Option<&str>)
    ensures
        handler_of(protocol) == Handler::UdpBind <==> (protocol matches Some(p) && p@ == seq![
            'c',
            'o',
            'n',
            'n',
            'e',
            'c',
            't',
            '-',
            'u',
            'd',
            'p',
        ]),
        handler_of(protocol) == Handler::UdpBind || handler_of(protocol) == Handler::ConnectIp,
{
    reveal_strlit("connect-udp");
    assert(CONNECT_UDP_PROTOCOL@ =~= seq![
        'c',
        'o',
        'n',
        'n',
        'e',
        'c',
        't',
        '-',
        'u',
        'd',
        'p',
    ]);
}

} // verus!
