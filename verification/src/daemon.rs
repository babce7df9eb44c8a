//! What the client daemon decides: how it authenticates and whom it trusts,
//! how large the tunnel's packets are, and what it reports.

use vstd::prelude::*;
use vstd::utf8::encode_utf8;

use crate::capsule::{AssignedAddress, Capsule, IpAddressRange};
use crate::client::{any_reconfigures, spec_reconfigures, TunnelClient};
use crate::error::ProxyError;
use crate::net::{IpAddr, SocketAddr};
use crate::text::{
    base64_encode, base64_of, base64_standard, chars_of, decimal, find, find_char, ip_text, push_decimal, push_ip, push_string,
    sub_chars, text_of, texts,
};

verus! {

/// Floor for the tunnel MTU; below this IPv6 cannot be carried (RFC 9484 §7.2).
pub const MIN_IPV6_MTU: u16 = 1280;

/// How often to re-sample the QUIC path MTU.
pub const MTU_POLL_MS: u64 = 5_000;

/// Smallest gain worth reconfiguring the device for.
pub const MTU_STEP: u16 = 16;

/// How the client authenticates to the proxy.
#[derive(Debug)]
pub enum ClientAuth {
    /// Not at all.
    NoAuth,
    /// With a bearer token.
    Bearer(String),
    /// With HTTP Basic credentials.
    Basic { user: String, password: String },
}

/// The value of the `Authorization` header, where the client authenticates by
/// one.
pub fn authorization(auth: &ClientAuth) -> (v: Option<String>)
    ensures
        match *auth {
            ClientAuth::NoAuth => v is None,
            ClientAuth::Bearer(token) => v matches Some(s) && s@ == "Bearer "@ + token@,
            ClientAuth::Basic { user, password } => v matches Some(s) && s@ == "Basic "@
                + base64_of(encode_utf8(user@ + ":"@ + password@)) && base64_standard(
                s@.skip(6),
            ) == Some(encode_utf8(user@ + ":"@ + password@)),
        },
{
    match auth {
        ClientAuth::NoAuth => None,
        ClientAuth::Bearer(token) => Some(String::from_str("Bearer ").concat(token.as_str())),
        ClientAuth::Basic { user, password } => {
            let pair = String::from_str(user.as_str()).concat(":").concat(password.as_str());
            let encoded = base64_encode(pair.as_str().as_bytes());
            let v = String::from_str("Basic ").concat(encoded.as_str());
            proof {
                reveal_strlit("Basic ");
                assert(v@.skip(6) =~= encoded@);
            }
            Some(v)
        },
    }
}

/// How to authenticate: with the bearer token if one is given, else with the
/// `user:password` pair, else not at all.
pub fn client_auth(bearer_token: Option<String>, basic: Option<&str>) -> (r: Result<
    ClientAuth,
    ProxyError,
>)
    ensures
        match bearer_token {
            Some(token) => r == Ok::<ClientAuth, ProxyError>(ClientAuth::Bearer(token)),
            None => match basic {
                Some(pair) => {
                    let k = find(pair@, ':');
                    if k < pair@.len() {
                        r matches Ok(ClientAuth::Basic { user, password }) && user@ == pair@.take(
                            k as int,
                        ) && password@ == pair@.skip(k as int + 1)
                    } else {
                        r matches Err(ProxyError::Config(t)) && t@
                            == "--basic expects user:password"@
                    }
                },
                None => r == Ok::<ClientAuth, ProxyError>(ClientAuth::NoAuth),
            },
        },
{
    if let Some(token) = bearer_token {
        return Ok(ClientAuth::Bearer(token));
    }
    match basic {
        Some(pair) => {
            let chars = chars_of(pair);
            let k = find_char(chars.as_slice(), ':');
            if k >= chars.len() {
                return Err(ProxyError::Config(String::from_str("--basic expects user:password")));
            }
            let user = sub_chars(chars.as_slice(), 0, k);
            let password = sub_chars(chars.as_slice(), k + 1, chars.len());
            proof {
                assert(user@ =~= pair@.take(k as int));
                assert(password@ =~= pair@.skip(k + 1));
            }
            Ok(
                ClientAuth::Basic {
                    user: text_of(user.as_slice()),
                    password: text_of(password.as_slice()),
                },
            )
        },
        None => Ok(ClientAuth::NoAuth),
    }
}

/// How the server certificate is validated.
#[derive(Debug)]
pub enum Trust {
    /// Skip verification (testing only).
    Insecure,
    /// Trust exactly the CA / self-signed certificate in this PEM file.
    Ca(String),
}

/// Whom to trust. One of the two must be said: `advice` tells the operator so.
pub fn trust(insecure: bool, ca_cert: Option<String>, advice: &str) -> (r: Result<Trust, ProxyError>)
    ensures
        if insecure {
            r == Ok::<Trust, ProxyError>(Trust::Insecure)
        } else {
            match ca_cert {
                Some(path) => r == Ok::<Trust, ProxyError>(Trust::Ca(path)),
                None => r matches Err(ProxyError::Config(t)) && t@ == advice@,
            }
        },
{
    if insecure {
        return Ok(Trust::Insecure);
    }
    match ca_cert {
        Some(path) => Ok(Trust::Ca(path)),
        None => Err(ProxyError::Config(String::from_str(advice))),
    }
}

/// A packet size as an MTU.
pub open spec fn as_mtu(size: usize) -> u16 {
    if size <= u16::MAX {
        size as u16
    } else {
        u16::MAX
    }
}

fn clamp_mtu(size: usize) -> (mtu: u16)
    ensures
        mtu == as_mtu(size),
{
    if size <= 65_535 {
        size as u16
    } else {
        65_535
    }
}

/// Largest IP packet the tunnel can carry, or the operator's override.
///
/// The path MTU starts conservative and rises as discovery probes, so
/// sampling at setup yields a safe lower bound; the tracker widens it later.
pub fn tunnel_mtu(chosen: Option<u16>, max_packet: Option<usize>) -> (r: Result<u16, ProxyError>)
    ensures
        match chosen {
            Some(mtu) => r == Ok::<u16, ProxyError>(mtu),
            None => match max_packet {
                Some(max) => r == Ok::<u16, ProxyError>(as_mtu(max)),
                None => r matches Err(ProxyError::Config(t)) && t@
                    == "proxy did not enable QUIC DATAGRAMs; cannot size the tunnel"@,
            },
        },
{
    if let Some(mtu) = chosen {
        return Ok(mtu);
    }
    match max_packet {
        Some(max) => Ok(clamp_mtu(max)),
        None => Err(
            ProxyError::Config(
                String::from_str("proxy did not enable QUIC DATAGRAMs; cannot size the tunnel"),
            ),
        ),
    }
}

/// Whether IPv6 may not pass a tunnel of this MTU.
pub fn below_ipv6_minimum(mtu: u16) -> (v: bool)
    ensures
        v == (mtu < MIN_IPV6_MTU),
{
    mtu < MIN_IPV6_MTU
}

/// The MTU to widen the device to, if a sample of the largest packet gains
/// enough over the current one.
pub fn raised_mtu(current: u16, max_packet: Option<usize>) -> (r: Option<u16>)
    ensures
        r == raised(current, max_packet),
{
    match max_packet {
        Some(max) => {
            let sampled = clamp_mtu(max);
            if sampled >= current.saturating_add(MTU_STEP) {
                Some(sampled)
            } else {
                None
            }
        },
        None => None,
    }
}

/// What happened to a running tunnel.
#[derive(Debug)]
pub enum DaemonEvent {
    /// The operator wants the daemon to stop.
    Terminate,
    /// The largest packet that the path carries now.
    Sampled(Option<usize>),
    /// Whether the device took the MTU it was given.
    MtuSet { mtu: u16, taken: bool },
    /// Capsules arrived.
    Capsules(Vec<Capsule>),
    /// The tunnel ended.
    Closed,
}

/// What the daemon does about it.
#[derive(Debug, Clone, Copy, PartialEq, Eq, Structural)]
pub enum DaemonStep {
    /// Wait for the next event.
    Wait,
    /// Widen the device to this MTU.
    SetMtu(u16),
    /// Remove what is installed, and install the current assignment and
    /// routes whole.
    Reconfigure,
    /// Remove what is installed, and end.
    Stop,
}

/// A running tunnel: the device's MTU, and whether it follows the path's
/// upward. An MTU that the operator chose stays.
#[derive(Debug)]
pub struct Daemon {
    pub mtu: u16,
    pub tracks_mtu: bool,
}

/// A capsule among some changes what the kernel should be configured with.
pub open spec fn some_reconfigures(capsules: Seq<Capsule>) -> bool {
    exists|i: int| 0 <= i < capsules.len() && spec_reconfigures(#[trigger] capsules[i])
}

/// What a sample of the path's largest packet makes of the MTU.
pub open spec fn raised(current: u16, max_packet: Option<usize>) -> Option<u16> {
    match max_packet {
        Some(max) => if as_mtu(max) >= current + MTU_STEP || (current + MTU_STEP > u16::MAX
            && as_mtu(max) == u16::MAX) {
            Some(as_mtu(max))
        } else {
            None
        },
        None => None,
    }
}

impl Daemon {
    /// A tunnel whose device was created with this MTU.
    pub fn new(mtu: u16, chosen: Option<u16>) -> (d: Self)
        ensures
            d.mtu == mtu,
            d.tracks_mtu == chosen is None,
    {
        Daemon { mtu, tracks_mtu: chosen.is_none() }
    }

    /// What is to be done about what happened.
    pub open spec fn answers(self, event: DaemonEvent) -> DaemonStep {
        match event {
            DaemonEvent::Terminate | DaemonEvent::Closed => DaemonStep::Stop,
            DaemonEvent::Sampled(max) => match raised(self.mtu, max) {
                Some(mtu) => if self.tracks_mtu {
                    DaemonStep::SetMtu(mtu)
                } else {
                    DaemonStep::Wait
                },
                None => DaemonStep::Wait,
            },
            DaemonEvent::MtuSet { .. } => DaemonStep::Wait,
            DaemonEvent::Capsules(capsules) => if some_reconfigures(capsules@) {
                DaemonStep::Reconfigure
            } else {
                DaemonStep::Wait
            },
        }
    }

    /// Take in what happened.
    pub fn on(&mut self, event: DaemonEvent) -> (s: DaemonStep)
        ensures
            final(self).tracks_mtu == old(self).tracks_mtu,
            final(self).mtu == (match event {
                DaemonEvent::MtuSet { mtu, taken } => if taken {
                    mtu
                } else {
                    old(self).mtu
                },
                _ => old(self).mtu,
            }),
            s == old(self).answers(event),
    {
        match event {
            DaemonEvent::Terminate => DaemonStep::Stop,
            DaemonEvent::Closed => DaemonStep::Stop,
            DaemonEvent::Sampled(max) => match raised_mtu(self.mtu, max) {
                Some(mtu) => if self.tracks_mtu {
                    DaemonStep::SetMtu(mtu)
                } else {
                    DaemonStep::Wait
                },
                None => DaemonStep::Wait,
            },
            DaemonEvent::MtuSet { mtu, taken } => {
                if taken {
                    self.mtu = mtu;
                }
                DaemonStep::Wait
            },
            DaemonEvent::Capsules(capsules) => if any_reconfigures(capsules.as_slice()) {
                DaemonStep::Reconfigure
            } else {
                DaemonStep::Wait
            },
        }
    }
}

/// The device's MTU only grows, and by no less than the step short of the
/// largest MTU there is.
pub proof fn lemma_mtu_grows(current: u16, max_packet: Option<usize>)
    ensures
        raised(current, max_packet) matches Some(mtu) ==> mtu >= current + MTU_STEP || mtu
            == u16::MAX,
        raised(current, max_packet) matches Some(mtu) ==> mtu >= current,
{
}

/// The proxy address to pin a route to: a proxy reached over loopback needs
/// none (and pinning would fail: the advertised routes never cover
/// 127.0.0.0/8).
pub fn pin_for(server: SocketAddr) -> (pin: Option<IpAddr>)
    ensures
        pin == (if server.ip.spec_loopback() {
            None::<IpAddr>
        } else {
            Some(server.ip)
        }),
{
    if server.ip.is_loopback() {
        None
    } else {
        Some(server.ip)
    }
}

/// The line that reports an address.
pub open spec fn address_line(dev: Seq<char>, a: AssignedAddress) -> Seq<char> {
    dev + ": "@ + ip_text(a.ip_address) + "/"@ + decimal(a.prefix_length as nat)
}

/// A protocol number, or `any`.
pub open spec fn protocol_text(proto: u8) -> Seq<char> {
    if proto == 0 {
        "any"@
    } else {
        decimal(proto as nat)
    }
}

/// The line that reports a route.
pub open spec fn route_line(dev: Seq<char>, r: IpAddressRange) -> Seq<char> {
    dev + ": route "@ + ip_text(r.start_ip) + " - "@ + ip_text(r.end_ip) + " proto "@
        + protocol_text(r.ip_protocol)
}

fn address_report(dev: &str, a: &AssignedAddress) -> (s: String)
    ensures
        s@ == address_line(dev@, *a),
{
    let mut s = String::from_str(dev);
    s.append(": ");
    push_ip(&mut s, a.ip_address);
    s.append("/");
    push_decimal(&mut s, a.prefix_length as u64);
    s
}

fn route_report(dev: &str, r: &IpAddressRange) -> (s: String)
    ensures
        s@ == route_line(dev@, *r),
{
    let mut s = String::from_str(dev);
    s.append(": route ");
    push_ip(&mut s, r.start_ip);
    s.append(" - ");
    push_ip(&mut s, r.end_ip);
    s.append(" proto ");
    if r.ip_protocol == 0 {
        s.append("any");
    } else {
        push_decimal(&mut s, r.ip_protocol as u64);
    }
    s
}

/// What the tunnel gave: a line per assigned address, then a line per route.
pub open spec fn report_lines(
    dev: Seq<char>,
    assigned: Seq<AssignedAddress>,
    routes: Seq<IpAddressRange>,
) -> Seq<Seq<char>> {
    assigned.map_values(|a: AssignedAddress| address_line(dev, a)) + routes.map_values(
        |r: IpAddressRange| route_line(dev, r),
    )
}

/// Report the assignment and the routes.
pub fn report(client: &TunnelClient, dev: &str) -> (lines: Vec<String>)
    ensures
        texts(lines@) == report_lines(dev@, client.assigned@, client.routes@),
{
    let mut lines: Vec<String> = Vec::new();
    let mut i: usize = 0;
    while i < client.assigned.len()
        invariant
            i <= client.assigned@.len(),
            texts(lines@) =~= client.assigned@.take(i as int).map_values(
                |a: AssignedAddress| address_line(dev@, a),
            ),
        decreases client.assigned@.len() - i,
    {
        push_string(&mut lines, address_report(dev, &client.assigned[i]));
        i = i + 1;
        proof {
            let line = |a: AssignedAddress| address_line(dev@, a);
            assert(client.assigned@.take(i as int).map_values(line) =~= client.assigned@.take(
                i - 1,
            ).map_values(line).push(line(client.assigned@[i - 1])));
        }
    }
    let mut j: usize = 0;
    let ghost first = texts(lines@);
    proof {
        assert(client.assigned@.take(i as int) =~= client.assigned@);
    }
    while j < client.routes.len()
        invariant
            j <= client.routes@.len(),
            texts(lines@) =~= first + client.routes@.take(j as int).map_values(
                |r: IpAddressRange| route_line(dev@, r),
            ),
        decreases client.routes@.len() - j,
    {
        push_string(&mut lines, route_report(dev, &client.routes[j]));
        j = j + 1;
        proof {
            let line = |r: IpAddressRange| route_line(dev@, r);
            assert(client.routes@.take(j as int).map_values(line) =~= client.routes@.take(
                j - 1,
            ).map_values(line).push(line(client.routes@[j - 1])));
        }
    }
    proof {
        assert(client.routes@.take(j as int) =~= client.routes@);
    }
    lines
}

/// The device's MTU is raised to what the path carries, and that as soon as it
/// is a step of sixteen bytes or more; it is never raised past what the path
/// carries, and without a measurement it stays.
pub proof fn lemma_raised(current: u16, max: usize)
    ensures
        current + 16 <= max && max <= 0xffff ==> raised(current, Some(max)) == Some(max as u16),
        max > 0xffff ==> raised(current, Some(max)) == Some(0xffffu16),
        max < current + 16 && max < 0xffff ==> raised(current, Some(max)) is None,
        raised(current, None) is None,
{
}

/// The report has one line for each assigned address and then one for each
/// route, in order.
pub proof fn lemma_report(
    dev: Seq<char>,
    assigned: Seq<AssignedAddress>,
    routes: Seq<IpAddressRange>,
    i: int,
)
    ensures
        report_lines(dev, assigned, routes).len() == assigned.len() + routes.len(),
        0 <= i < assigned.len() ==> report_lines(dev, assigned, routes)[i] == dev + seq![':', ' ']
            + ip_text(assigned[i].ip_address) + seq!['/'] + decimal(
            assigned[i].prefix_length as nat,
        ),
        0 <= i < routes.len() ==> report_lines(dev, assigned, routes)[assigned.len() + i] == dev
            + ": route "@ + ip_text(routes[i].start_ip) + " - "@ + ip_text(routes[i].end_ip)
            + " proto "@ + if routes[i].ip_protocol == 0 {
            "any"@
        } else {
            decimal(routes[i].ip_protocol as nat)
        },
{
    reveal_strlit(": ");
    reveal_strlit("/");
    assert(": "@ =~= seq![':', ' ']);
    assert("/"@ =~= seq!['/']);
}

/// The tunnel is made as large as the path carries, as far as an MTU can say.
pub proof fn lemma_as_mtu(size: usize)
    ensures
        size <= 0xffff ==> as_mtu(size) == size,
        size > 0xffff ==> as_mtu(size) == 0xffff,
{
}

/// The daemon stops exactly when it is told to or the tunnel closed; it
/// configures anew exactly when a capsule assigns addresses or advertises
/// routes; and it sets the MTU exactly when it tracks it and the path carries
/// enough more.
pub proof fn lemma_daemon(d: Daemon, event: DaemonEvent, mtu: u16)
    ensures
        d.answers(event) == DaemonStep::Stop <==> event is Terminate || event is Closed,
        d.answers(event) == DaemonStep::Reconfigure <==> (event matches DaemonEvent::Capsules(cs)
            && exists|i: int|
            0 <= i < cs@.len() && ((#[trigger] cs@[i]) is AddressAssign
                || cs@[i] is RouteAdvertisement)),
        d.answers(event) == DaemonStep::SetMtu(mtu) <==> d.tracks_mtu && (event matches
            DaemonEvent::Sampled(Some(max)) && (d.mtu + 16 <= max || max > 0xffff || (d.mtu + 16
            > 0xffff && max == 0xffff)) && mtu == if max > 0xffff {
            0xffffint
        } else {
            max as int
        }),
{
    if let DaemonEvent::Capsules(cs) = event {
        if some_reconfigures(cs@) {
            let i = choose|i: int| 0 <= i < cs@.len() && spec_reconfigures(#[trigger] cs@[i]);
            assert(cs@[i] is AddressAssign || cs@[i] is RouteAdvertisement);
        }
        if exists|i: int|
            0 <= i < cs@.len() && ((#[trigger] cs@[i]) is AddressAssign
                || cs@[i] is RouteAdvertisement) {
            let i = choose|i: int|
                0 <= i < cs@.len() && ((#[trigger] cs@[i]) is AddressAssign
                    || cs@[i] is RouteAdvertisement);
            assert(spec_reconfigures(cs@[i]));
        }
    }
}

} // verus!
