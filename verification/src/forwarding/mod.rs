//! IP forwarding engine: validates packets and decides where they go between
//! tunnel sessions and the network (TUN device).
//!
//! Data plane paths:
//! - client → network: validate → TTL decrement → route lookup → TUN write
//! - client → client (hairpin): same validation, delivered to the peer
//!   session — this is what makes site-to-site and rootless testing work with
//!   no TUN device at all
//! - network → client: parse → route lookup → TTL decrement → session
//!
//! The engine decides; the caller owns the sockets. Every decision comes back
//! as a [`Verdict`], and the caller sends what the verdict holds.

pub mod checksum;
pub mod icmp;
pub mod limiter;
pub mod masquerade;
pub mod packet;
pub mod router;
pub mod tun;
pub mod vnet;

use bytes::Bytes;
use dashmap::DashMap;
use vstd::prelude::*;
use vstd::slice::slice_to_vec;

use crate::buf::{frozen, frozen_slice};
use crate::capsule::codec::VARINT_MAX;
use crate::capsule::{AssignedAddress, IpAddressRange};
use crate::datagram::{
    encode_quic_datagram, quic_datagram_bytes, IpProxyingDatagram, CONTEXT_ID_IP_PACKET,
};
use crate::error::ForwardingError;
use crate::net::IpAddr;
use crate::session::SessionId;

use self::icmp::{build_icmp_error, error_about, IcmpErrorKind, IcmpSource};
use self::limiter::{admission, RateLimits, SessionLimiter};
use self::packet::{
    after_hop, decrement_ttl, destination_refused, one_hop_later, packet_info, parse_packet,
    source_allowed, validate_destination, validate_source, PacketInfo,
};
use self::router::{RouteEntry, RouteTable};

verus! {

/// Where a client packet ended up.
#[derive(Debug, Clone, Copy, PartialEq, Eq, Structural)]
pub enum Forwarded {
    /// Delivered to another tunnel session (or looped back to the sender).
    Hairpin(SessionId),
    /// Written toward the network via the TUN device.
    Tun,
}

/// What a session is allowed to send to: exactly the ranges the proxy
/// advertised in its ROUTE_ADVERTISEMENT (RFC 9484 §4.7.3 — clients MUST
/// NOT send packets outside them, so the proxy enforces it).
#[derive(Debug)]
pub struct EgressPolicy {
    ranges: Vec<IpAddressRange>,
}

/// Some range holds the address under the protocol.
pub open spec fn ranges_allow(ranges: Seq<IpAddressRange>, addr: IpAddr, proto: u8) -> bool {
    exists|i: int| 0 <= i < ranges.len() && (#[trigger] ranges[i]).spec_contains(addr, proto)
}

impl View for EgressPolicy {
    type V = Seq<IpAddressRange>;

    /// The advertised ranges.
    closed spec fn view(&self) -> Seq<IpAddressRange> {
        self.ranges@
    }
}

impl EgressPolicy {
    pub fn new(ranges: Vec<IpAddressRange>) -> (p: Self)
        ensures
            p@ == ranges@,
    {
        EgressPolicy { ranges }
    }

    pub fn allows(&self, dst: &IpAddr, proto: u8) -> (v: bool)
        ensures
            v == ranges_allow(self@, *dst, proto),
    {
        let mut i: usize = 0;
        while i < self.ranges.len()
            invariant
                i <= self.ranges@.len(),
                forall|j: int|
                    0 <= j < i ==> !(#[trigger] self.ranges@[j]).spec_contains(*dst, proto),
            decreases self.ranges@.len() - i,
        {
            if self.ranges[i].contains(dst, proto) {
                assert(self.ranges@[i as int].spec_contains(*dst, proto));
                return true;
            }
            i = i + 1;
        }
        false
    }
}

/// What the engine keeps per session.
#[derive(Debug)]
pub struct SessionState {
    /// The advertised routes.
    pub policy: EgressPolicy,
    /// The largest IP packet one QUIC DATAGRAM can carry toward that client
    /// (RFC 9484 §7.2). The path MTU starts low and rises as discovery
    /// probes, so this moves while the session lives.
    pub mtu: usize,
    /// Token buckets; absent when limits are unlimited.
    pub limiter: Option<SessionLimiter>,
}

/// The limiter that a session starts with: full buckets under the limits, and
/// none where nothing is limited.
pub open spec fn starts_full(l: Option<SessionLimiter>, limits: RateLimits) -> bool {
    match l {
        Some(l) => !limits.spec_unlimited() && l.spec_limits() == limits && l.buckets()
            == limiter::full_buckets(limits),
        None => limits.spec_unlimited(),
    }
}

/// What a map from sessions to their state holds.
pub uninterp spec fn state_map(m: DashMap<u64, SessionState>) -> Map<u64, SessionState>;

/// No session at all.
pub open spec fn no_sessions() -> Map<u64, SessionState> {
    Map::empty()
}

/// `DashMap::new`: an empty map.
#[verifier::external_body]
fn state_map_new() -> (m: DashMap<u64, SessionState>)
    ensures
        state_map(m) == no_sessions(),
{
    DashMap::new()
}

/// `DashMap::insert`: sets the value of a key.
#[verifier::external_body]
fn state_map_insert(m: &mut DashMap<u64, SessionState>, id: u64, state: SessionState)
    ensures
        state_map(*final(m)) == state_map(*old(m)).insert(id, state),
{
    m.insert(id, state);
}

/// `DashMap::remove`: takes a key and its value out, if it is there.
#[verifier::external_body]
fn state_map_remove(m: &mut DashMap<u64, SessionState>, id: u64) -> (r: Option<SessionState>)
    ensures
        state_map(*final(m)) == state_map(*old(m)).remove(id),
        r == (if state_map(*old(m)).dom().contains(id) {
            Some(state_map(*old(m))[id])
        } else {
            None
        }),
{
    m.remove(&id).map(|kv| kv.1)
}

/// `DashMap::contains_key`: whether a key is there.
#[verifier::external_body]
fn state_map_has(m: &DashMap<u64, SessionState>, id: u64) -> (r: bool)
    ensures
        r == state_map(*m).dom().contains(id),
{
    m.contains_key(&id)
}

/// `DashMap::view`, asking the session's policy about an address.
#[verifier::external_body]
fn state_map_allows(m: &DashMap<u64, SessionState>, id: u64, addr: &IpAddr, proto: u8) -> (r:
    Option<bool>)
    ensures
        r == (if state_map(*m).dom().contains(id) {
            Some(ranges_allow(state_map(*m)[id].policy@, *addr, proto))
        } else {
            None
        }),
{
    m.view(&id, |_, s| s.policy.allows(addr, proto))
}

/// `DashMap::view`, picking the session's MTU.
#[verifier::external_body]
fn state_map_mtu(m: &DashMap<u64, SessionState>, id: u64) -> (r: Option<usize>)
    ensures
        r == (if state_map(*m).dom().contains(id) {
            Some(state_map(*m)[id].mtu)
        } else {
            None
        }),
{
    m.view(&id, |_, s| s.mtu)
}

/// The forwarding engine shared by all sessions.
#[derive(Debug)]
pub struct ForwardingEngine {
    route_table: RouteTable,
    sessions: DashMap<u64, SessionState>,
    /// Whether packets can leave toward the network.
    has_tun: bool,
    /// Tunnel MTU enforced on both directions.
    mtu: u16,
    /// Source addresses for generated ICMP errors (the pool gateways).
    icmp_source: IcmpSource,
    /// Per-session rate limits applied to client traffic.
    limits: RateLimits,
}

/// What is to become of a packet.
#[derive(Debug)]
pub enum Verdict {
    /// Deliver the packet to a session's client.
    Deliver { session: SessionId, packet: Vec<u8> },
    /// Write the packet to the network.
    Network { packet: Vec<u8> },
    /// Drop the packet. `reply` is an ICMP error to deliver back to the
    /// sending session, best-effort.
    Refuse { error: ForwardingError, reply: Option<Vec<u8>> },
}

/// A [`Verdict`] as plain values.
pub enum VerdictView {
    Deliver { session: SessionId, packet: Seq<u8> },
    Network { packet: Seq<u8> },
    Refuse { error: ForwardingError, reply: Option<Seq<u8>> },
}

impl View for Verdict {
    type V = VerdictView;

    open spec fn view(&self) -> VerdictView {
        match self {
            Verdict::Deliver { session, packet } => VerdictView::Deliver {
                session: *session,
                packet: packet@,
            },
            Verdict::Network { packet } => VerdictView::Network { packet: packet@ },
            Verdict::Refuse { error, reply } => VerdictView::Refuse {
                error: *error,
                reply: match reply {
                    Some(p) => Some(p@),
                    None => None,
                },
            },
        }
    }
}

/// `n` modulo 2^16, the way an ICMP MTU field takes it.
pub open spec fn mtu_field(n: usize) -> u16 {
    (n % 0x1_0000) as u16
}

fn low16(n: usize) -> (v: u16)
    ensures
        v == mtu_field(n),
{
    (n % 0x1_0000) as u16
}

fn widen(n: u16) -> (v: usize)
    ensures
        v == n,
{
    n as usize
}

fn byte_count(packet: &[u8]) -> (n: u64)
    ensures
        n == packet@.len(),
{
    packet.len() as u64
}

/// What forwarding a packet of a client makes of the engine `before`, when the
/// session's rate limiter stands at `now`: the session pays for the packet,
/// and the packet meets the client's verdict unless the session cannot pay.
pub open spec fn forwarded_at(
    before: ForwardingEngine,
    after: ForwardingEngine,
    from: SessionId,
    assigned: Seq<AssignedAddress>,
    packet: Seq<u8>,
    now: u64,
    v: VerdictView,
) -> bool {
    &&& after.same_setup(before)
    &&& after.states().dom() == before.states().dom()
    &&& after.states().remove(from.0) == before.states().remove(from.0)
    &&& match before.limiter_of(from) {
        Some(l) => {
            let (ok, buckets) = admission(l.spec_limits(), l.buckets(), packet.len() as u64, now);
            &&& after.states()[from.0].policy == before.states()[from.0].policy
            &&& after.states()[from.0].mtu == before.states()[from.0].mtu
            &&& after.limiter_of(from) matches Some(paid) && paid.spec_limits() == l.spec_limits()
                && paid.buckets() == buckets
            &&& v == if ok {
                before.client_verdict(from, assigned, packet)
            } else {
                VerdictView::Refuse { error: ForwardingError::RateLimited, reply: None }
            }
        },
        None => {
            &&& after.states() == before.states()
            &&& v == before.client_verdict(from, assigned, packet)
        },
    }
}

/// A packet of a client was forwarded at some time of its rate limiter.
pub open spec fn forwarded(
    before: ForwardingEngine,
    after: ForwardingEngine,
    from: SessionId,
    assigned: Seq<AssignedAddress>,
    packet: Seq<u8>,
    v: VerdictView,
) -> bool {
    exists|now: u64| #[trigger] forwarded_at(before, after, from, assigned, packet, now, v)
}

impl ForwardingEngine {
    pub closed spec fn table(self) -> RouteTable {
        self.route_table
    }

    pub closed spec fn states(self) -> Map<u64, SessionState> {
        state_map(self.sessions)
    }

    pub closed spec fn tun(self) -> bool {
        self.has_tun
    }

    pub closed spec fn spec_mtu(self) -> u16 {
        self.mtu
    }

    pub closed spec fn error_source(self) -> IcmpSource {
        self.icmp_source
    }

    pub closed spec fn spec_limits(self) -> RateLimits {
        self.limits
    }

    /// Everything but the sessions is as in `other`.
    pub open spec fn same_setup(self, other: ForwardingEngine) -> bool {
        self.table() == other.table() && self.same_settings(other)
    }

    /// What the engine was made with is as in `other`.
    pub open spec fn same_settings(self, other: ForwardingEngine) -> bool {
        &&& self.tun() == other.tun()
        &&& self.spec_mtu() == other.spec_mtu()
        &&& self.error_source() == other.error_source()
        &&& self.spec_limits() == other.spec_limits()
    }

    /// The session was advertised a range that holds the address under the
    /// protocol. A session that is not registered allows nothing.
    pub open spec fn session_allows(self, id: SessionId, addr: IpAddr, proto: u8) -> bool {
        self.states().dom().contains(id.0) && ranges_allow(
            self.states()[id.0].policy@,
            addr,
            proto,
        )
    }

    /// The tunnel MTU toward a session; the configured one for a session that
    /// registered none.
    pub open spec fn spec_session_mtu(self, id: SessionId) -> usize {
        if self.states().dom().contains(id.0) {
            self.states()[id.0].mtu
        } else {
            self.spec_mtu() as usize
        }
    }

    /// The packet is dropped, and the sender is told why where a router would
    /// tell it.
    pub open spec fn refusal(
        self,
        from: SessionId,
        error: ForwardingError,
        kind: IcmpErrorKind,
        packet: Seq<u8>,
    ) -> VerdictView {
        VerdictView::Refuse {
            error,
            reply: if self.states().dom().contains(from.0) {
                error_about(kind, self.error_source(), packet)
            } else {
                None
            },
        }
    }

    /// Where a packet that has passed every check of its sender goes.
    pub open spec fn onward(
        self,
        from: SessionId,
        info: PacketInfo,
        packet: Seq<u8>,
    ) -> VerdictView {
        match self.table().spec_lookup(info.dst, info.protocol) {
            Some(target) => if !self.session_allows(target, info.src, info.protocol) {
                self.refusal(
                    from,
                    ForwardingError::NotAllowed(info.dst),
                    IcmpErrorKind::AdminProhibited,
                    packet,
                )
            } else if packet.len() > self.spec_session_mtu(target) {
                self.refusal(
                    from,
                    ForwardingError::MtuExceeded,
                    IcmpErrorKind::PacketTooBig { mtu: mtu_field(self.spec_session_mtu(target)) },
                    packet,
                )
            } else {
                VerdictView::Deliver { session: target, packet }
            },
            None => if self.tun() {
                VerdictView::Network { packet }
            } else {
                self.refusal(
                    from,
                    ForwardingError::NoRoute,
                    IcmpErrorKind::NoRoute,
                    packet,
                )
            },
        }
    }

    /// What becomes of a packet from a client that is within its rate.
    pub open spec fn client_verdict(
        self,
        from: SessionId,
        assigned: Seq<AssignedAddress>,
        packet: Seq<u8>,
    ) -> VerdictView {
        match packet_info(packet) {
            Err(error) => VerdictView::Refuse { error, reply: None },
            Ok(info) => if !source_allowed(assigned, info.src) {
                VerdictView::Refuse {
                    error: ForwardingError::SourceAddressViolation(info.src),
                    reply: None,
                }
            } else if packet.len() > self.spec_mtu() {
                self.refusal(
                    from,
                    ForwardingError::MtuExceeded,
                    IcmpErrorKind::PacketTooBig { mtu: self.spec_mtu() },
                    packet,
                )
            } else if destination_refused(info.dst) {
                VerdictView::Refuse { error: ForwardingError::LinkLocalDrop, reply: None }
            } else if !self.session_allows(from, info.dst, info.protocol) {
                self.refusal(
                    from,
                    ForwardingError::NotAllowed(info.dst),
                    IcmpErrorKind::AdminProhibited,
                    packet,
                )
            } else {
                match after_hop(packet) {
                    Err(ForwardingError::TtlExpired) => self.refusal(
                        from,
                        ForwardingError::TtlExpired,
                        IcmpErrorKind::TimeExceeded,
                        packet,
                    ),
                    Err(error) => VerdictView::Refuse { error, reply: None },
                    Ok(hopped) => self.onward(from, info, hopped),
                }
            },
        }
    }

    /// What becomes of a packet from the network.
    pub open spec fn network_verdict(self, packet: Seq<u8>) -> VerdictView {
        match packet_info(packet) {
            Err(error) => VerdictView::Refuse { error, reply: None },
            Ok(info) => match self.table().spec_lookup(info.dst, info.protocol) {
                None => VerdictView::Refuse { error: ForwardingError::NoRoute, reply: None },
                Some(target) => if !self.session_allows(target, info.src, info.protocol) {
                    VerdictView::Refuse {
                        error: ForwardingError::NotAllowed(info.src),
                        reply: None,
                    }
                } else if packet.len() > self.spec_session_mtu(target) {
                    VerdictView::Refuse { error: ForwardingError::MtuExceeded, reply: None }
                } else {
                    match after_hop(packet) {
                        Err(error) => VerdictView::Refuse { error, reply: None },
                        Ok(hopped) => VerdictView::Deliver { session: target, packet: hopped },
                    }
                },
            },
        }
    }

    /// An engine with no sessions and no routes.
    pub fn new(has_tun: bool, mtu: u16, icmp_source: IcmpSource, limits: RateLimits) -> (e: Self)
        ensures
            e.states() == no_sessions(),
            e.table().clients() == router::no_addrs(),
            e.table().prefix_routes() == Seq::<RouteEntry>::empty(),
            e.tun() == has_tun,
            e.spec_mtu() == mtu,
            e.error_source() == icmp_source,
            e.spec_limits() == limits,
    {
        ForwardingEngine {
            route_table: RouteTable::new(),
            sessions: state_map_new(),
            has_tun,
            mtu,
            icmp_source,
            limits,
        }
    }

    pub fn route_table(&self) -> (t: &RouteTable)
        ensures
            *t == self.table(),
    {
        &self.route_table
    }

    /// Register an assigned client address.
    pub fn insert_client_addr(&mut self, addr: IpAddr, session: SessionId)
        ensures
            final(self).same_settings(*old(self)),
            final(self).states() == old(self).states(),
            final(self).table().clients() == old(self).table().clients().insert(
                router::key_of(addr),
                session.0,
            ),
            final(self).table().prefix_routes() == old(self).table().prefix_routes(),
    {
        self.route_table.insert_client_addr(addr, session);
    }

    /// Replace all prefix routes for a session.
    pub fn replace_session_routes(&mut self, session: SessionId, entries: Vec<RouteEntry>)
        ensures
            final(self).same_settings(*old(self)),
            final(self).states() == old(self).states(),
            final(self).table().clients() == old(self).table().clients(),
            final(self).table().prefix_routes() == router::routes_elsewhere(
                old(self).table().prefix_routes(),
                session,
            ) + entries@,
    {
        self.route_table.replace_session_routes(session, entries);
    }

    /// Remove all routes of a session.
    pub fn remove_session_routes(&mut self, session: SessionId)
        ensures
            final(self).same_settings(*old(self)),
            final(self).states() == old(self).states(),
            final(self).table().clients() == router::without_session(
                old(self).table().clients(),
                session.0,
            ),
            final(self).table().prefix_routes() == router::routes_elsewhere(
                old(self).table().prefix_routes(),
                session,
            ),
    {
        self.route_table.remove_session(session);
    }

    /// Register a session: the egress policy matching what was advertised to
    /// it, and its tunnel MTU. A rate-limited engine gives it full buckets.
    pub fn register_session(&mut self, id: SessionId, policy: EgressPolicy, mtu: usize)
        ensures
            final(self).same_setup(*old(self)),
            final(self).states().dom() == old(self).states().dom().insert(id.0),
            final(self).states().remove(id.0) == old(self).states().remove(id.0),
            final(self).states()[id.0].policy == policy,
            final(self).states()[id.0].mtu == mtu,
            starts_full(final(self).states()[id.0].limiter, old(self).spec_limits()),
    {
        let limiter = if self.limits.is_unlimited() {
            None
        } else {
            Some(SessionLimiter::new(self.limits))
        };
        let state = SessionState { policy, mtu, limiter };
        state_map_insert(&mut self.sessions, id.0, state);
        proof {
            assert(self.states().remove(id.0) =~= old(self).states().remove(id.0));
        }
    }

    /// Remove a session's policy, MTU and limiter (teardown).
    pub fn unregister_session(&mut self, id: SessionId)
        ensures
            final(self).same_setup(*old(self)),
            final(self).states() == old(self).states().remove(id.0),
    {
        let _ = state_map_remove(&mut self.sessions, id.0);
    }

    /// Follow the path MTU of a session. A session that is not registered
    /// stays so.
    pub fn set_session_mtu(&mut self, id: SessionId, mtu: usize)
        ensures
            final(self).same_setup(*old(self)),
            final(self).states() == (if old(self).states().dom().contains(id.0) {
                old(self).states().insert(
                    id.0,
                    SessionState { mtu, ..old(self).states()[id.0] },
                )
            } else {
                old(self).states()
            }),
    {
        match state_map_remove(&mut self.sessions, id.0) {
            Some(state) => {
                let moved = SessionState { policy: state.policy, mtu, limiter: state.limiter };
                state_map_insert(&mut self.sessions, id.0, moved);
                proof {
                    assert(self.states() =~= old(self).states().insert(
                        id.0,
                        SessionState { mtu, ..old(self).states()[id.0] },
                    ));
                }
            },
            None => {
                proof {
                    assert(self.states() =~= old(self).states());
                }
            },
        }
    }

    /// The current tunnel MTU toward `id`, or the configured MTU for a
    /// session that registered none.
    pub fn session_mtu(&self, id: SessionId) -> (mtu: usize)
        ensures
            mtu == self.spec_session_mtu(id),
    {
        match state_map_mtu(&self.sessions, id.0) {
            Some(mtu) => mtu,
            None => widen(self.mtu),
        }
    }

    /// Whether a session was advertised a range that holds `addr` under
    /// `proto`.
    fn allows(&self, id: SessionId, addr: &IpAddr, proto: u8) -> (v: bool)
        ensures
            v == self.session_allows(id, *addr, proto),
    {
        match state_map_allows(&self.sessions, id.0, addr, proto) {
            Some(v) => v,
            None => false,
        }
    }

    /// Whether packets from `info.src` fall inside the receiving session's
    /// advertised scope (ICMP is exempt on the protocol dimension).
    pub fn session_accepts(&self, target: SessionId, info: &PacketInfo) -> (v: bool)
        ensures
            v == self.session_allows(target, info.src, info.protocol),
    {
        self.allows(target, &info.src, info.protocol)
    }

    /// Drop a packet and build the ICMP error for its sender, if there is a
    /// session to tell.
    fn refuse(
        &self,
        from: SessionId,
        error: ForwardingError,
        kind: IcmpErrorKind,
        original: &[u8],
    ) -> (v: Verdict)
        ensures
            v@ == self.refusal(from, error, kind, original@),
    {
        let reply = if state_map_has(&self.sessions, from.0) {
            build_icmp_error(kind, self.icmp_source, original)
        } else {
            None
        };
        Verdict::Refuse { error, reply }
    }

    /// Process a packet received from a client tunnel, at `now` in
    /// nanoseconds of the session's rate limiter.
    ///
    /// Rate-limits, validates (BCP 38 source check, MTU, destination
    /// sanity, egress policy), acts as one IP hop (TTL decrement), then
    /// either hairpins to another session or hands the packet to the TUN
    /// device. Drops that a router would report earn an ICMP error back to
    /// the sender (§7.2); over-limit traffic is dropped silently.
    pub fn forward_from_client_at(
        &mut self,
        from: SessionId,
        assigned: &[AssignedAddress],
        packet: &[u8],
        now: u64,
    ) -> (v: Verdict)
        ensures
            forwarded_at(*old(self), *final(self), from, assigned@, packet@, now, v@),
    {
        // Rate limiting first: over-limit traffic must not cost validation
        // work, and is dropped silently.
        if !self.charge(from, packet, now) {
            return Verdict::Refuse { error: ForwardingError::RateLimited, reply: None };
        }
        let v = self.forward_validated(from, assigned, packet);
        proof {
            self.lemma_same_verdict(*old(self), from, assigned@, packet@);
        }
        v
    }

    /// Process a packet received from a client tunnel, now.
    pub fn forward_from_client(
        &mut self,
        from: SessionId,
        assigned: &[AssignedAddress],
        packet: &[u8],
    ) -> (v: Verdict)
        ensures
            forwarded(*old(self), *final(self), from, assigned@, packet@, v@),
    {
        let now: u64 = self.limiter_clock(from);
        let ghost mid = *self;
        let v = self.forward_from_client_at(from, assigned, packet, now);
        proof {
            mid.lemma_same_verdict(*old(self), from, assigned@, packet@);
            assert(forwarded_at(*old(self), *self, from, assigned@, packet@, now, v@));
        }
        v
    }

    /// The rate limiter of a session, if it has one.
    pub open spec fn limiter_of(self, id: SessionId) -> Option<SessionLimiter> {
        if self.states().dom().contains(id.0) {
            self.states()[id.0].limiter
        } else {
            None
        }
    }

    /// Reads the clock of a session's rate limiter; zero for a session that
    /// has none.
    fn limiter_clock(&mut self, from: SessionId) -> (now: u64)
        ensures
            final(self).same_setup(*old(self)),
            final(self).states() == old(self).states(),
            old(self).limiter_of(from) is None ==> now == 0,
    {
        match state_map_remove(&mut self.sessions, from.0) {
            Some(state) => {
                let now: u64 = match &state.limiter {
                    Some(l) => l.now(),
                    None => 0,
                };
                state_map_insert(&mut self.sessions, from.0, state);
                proof {
                    assert(self.states() =~= old(self).states());
                }
                now
            },
            None => {
                proof {
                    assert(self.states() =~= old(self).states());
                }
                0
            },
        }
    }

    /// Charges a packet to its session's buckets.
    fn charge(&mut self, from: SessionId, packet: &[u8], now: u64) -> (ok: bool)
        ensures
            final(self).same_setup(*old(self)),
            final(self).states().dom() == old(self).states().dom(),
            final(self).states().remove(from.0) == old(self).states().remove(from.0),
            match old(self).limiter_of(from) {
                Some(l) => {
                    let (admitted, buckets) = admission(
                        l.spec_limits(),
                        l.buckets(),
                        packet@.len() as u64,
                        now,
                    );
                    &&& ok == admitted
                    &&& final(self).states()[from.0].policy == old(self).states()[from.0].policy
                    &&& final(self).states()[from.0].mtu == old(self).states()[from.0].mtu
                    &&& final(self).limiter_of(from) matches Some(after) && after.spec_limits()
                        == l.spec_limits() && after.buckets() == buckets
                },
                None => ok && final(self).states() == old(self).states(),
            },
    {
        let bytes: u64 = byte_count(packet);
        match state_map_remove(&mut self.sessions, from.0) {
            Some(mut state) => {
                let mut ok = true;
                match state.limiter {
                    Some(mut l) => {
                        ok = l.try_consume_at(bytes, now);
                        state.limiter = Some(l);
                    },
                    None => {
                        state.limiter = None;
                    },
                }
                state_map_insert(&mut self.sessions, from.0, state);
                proof {
                    assert(self.states().dom() =~= old(self).states().dom());
                    assert(self.states().remove(from.0) =~= old(self).states().remove(from.0));
                    if old(self).limiter_of(from) is None {
                        assert(self.states() =~= old(self).states());
                    }
                }
                ok
            },
            None => {
                proof {
                    assert(self.states() =~= old(self).states());
                }
                true
            },
        }
    }

    /// Charging a packet does not change what the rules say about it.
    proof fn lemma_same_verdict(
        self,
        other: ForwardingEngine,
        from: SessionId,
        assigned: Seq<AssignedAddress>,
        packet: Seq<u8>,
    )
        requires
            self.same_setup(other),
            self.states().dom() == other.states().dom(),
            self.states().remove(from.0) == other.states().remove(from.0),
            self.states().dom().contains(from.0) ==> self.states()[from.0].policy
                == other.states()[from.0].policy && self.states()[from.0].mtu
                == other.states()[from.0].mtu,
        ensures
            self.client_verdict(from, assigned, packet) == other.client_verdict(
                from,
                assigned,
                packet,
            ),
    {
        assert forall|id: u64| #[trigger] self.states().dom().contains(id) implies self.states()[id].policy
            == other.states()[id].policy && self.states()[id].mtu == other.states()[id].mtu by {
            if id != from.0 {
                assert(self.states().remove(from.0)[id] == self.states()[id]);
                assert(other.states().remove(from.0)[id] == other.states()[id]);
            }
        }
        assert(forall|id: SessionId, a: IpAddr, p: u8|
            self.session_allows(id, a, p) == other.session_allows(id, a, p));
        assert(forall|id: SessionId| self.spec_session_mtu(id) == other.spec_session_mtu(id));
    }

    fn forward_validated(
        &self,
        from: SessionId,
        assigned: &[AssignedAddress],
        packet: &[u8],
    ) -> (v: Verdict)
        ensures
            v@ == self.client_verdict(from, assigned@, packet@),
    {
        // Malformed and spoofed packets are dropped silently: no ICMP for
        // senders we cannot trust (BCP 38).
        let info = match parse_packet(packet) {
            Ok(info) => info,
            Err(error) => {
                return Verdict::Refuse { error, reply: None };
            },
        };
        match validate_source(&info, assigned) {
            Ok(_) => {},
            Err(error) => {
                return Verdict::Refuse { error, reply: None };
            },
        }
        if packet.len() > widen(self.mtu) {
            return self.refuse(
                from,
                ForwardingError::MtuExceeded,
                IcmpErrorKind::PacketTooBig { mtu: self.mtu },
                packet,
            );
        }
        match validate_destination(&info.dst) {
            Ok(_) => {},
            Err(error) => {
                return Verdict::Refuse { error, reply: None };
            },
        }
        // Split-tunnel enforcement: only advertised destinations.
        if !self.allows(from, &info.dst, info.protocol) {
            return self.refuse(
                from,
                ForwardingError::NotAllowed(info.dst),
                IcmpErrorKind::AdminProhibited,
                packet,
            );
        }
        // One IP hop. On expiry the packet is unmodified, so the ICMP quote
        // carries the TTL as received.
        let mut hopped = slice_to_vec(packet);
        match decrement_ttl(&mut hopped) {
            Ok(_) => {},
            Err(error) => {
                match error {
                    ForwardingError::TtlExpired => {
                        return self.refuse(from, error, IcmpErrorKind::TimeExceeded, packet);
                    },
                    _ => {
                        return Verdict::Refuse { error, reply: None };
                    },
                }
            },
        }
        // Hairpin: destination is another tunnel client (or the sender
        // itself), so the packet never touches the TUN device. The
        // receiver's scope applies on ingress too: a flow-scoped session
        // (RFC 9484 §8.3) only accepts packets from within its scope.
        match self.route_table.lookup(info.dst, info.protocol) {
            Some(target) => {
                if !self.session_accepts(target, &info) {
                    return self.refuse(
                        from,
                        ForwardingError::NotAllowed(info.dst),
                        IcmpErrorKind::AdminProhibited,
                        hopped.as_slice(),
                    );
                }
                let peer_mtu: usize = self.session_mtu(target);
                if hopped.len() > peer_mtu {
                    return self.refuse(
                        from,
                        ForwardingError::MtuExceeded,
                        IcmpErrorKind::PacketTooBig { mtu: low16(peer_mtu) },
                        hopped.as_slice(),
                    );
                }
                Verdict::Deliver { session: target, packet: hopped }
            },
            None => {
                if self.has_tun {
                    Verdict::Network { packet: hopped }
                } else {
                    self.refuse(
                        from,
                        ForwardingError::NoRoute,
                        IcmpErrorKind::NoRoute,
                        hopped.as_slice(),
                    )
                }
            },
        }
    }

    /// Process a packet arriving from the network (TUN device) and find the
    /// owning session. Nothing is ever reported back to the network.
    pub fn dispatch_from_network(&self, packet: &[u8]) -> (v: Verdict)
        ensures
            v@ == self.network_verdict(packet@),
    {
        let info = match parse_packet(packet) {
            Ok(info) => info,
            Err(error) => {
                return Verdict::Refuse { error, reply: None };
            },
        };
        let target = match self.route_table.lookup(info.dst, info.protocol) {
            Some(target) => target,
            None => {
                return Verdict::Refuse { error: ForwardingError::NoRoute, reply: None };
            },
        };
        // Ingress scope: flow-scoped sessions only accept traffic from
        // their target (dropped silently for network-originated packets).
        if !self.session_accepts(target, &info) {
            return Verdict::Refuse { error: ForwardingError::NotAllowed(info.src), reply: None };
        }
        // The tunnel toward this client can briefly be narrower than the TUN
        // device before path-MTU discovery ramps. Drop rather than inject a
        // martian-sourced ICMP into the network; PMTUD toward the network is
        // the kernel's job via the device MTU.
        if packet.len() > self.session_mtu(target) {
            return Verdict::Refuse { error: ForwardingError::MtuExceeded, reply: None };
        }
        let mut hopped = slice_to_vec(packet);
        match decrement_ttl(&mut hopped) {
            Ok(_) => Verdict::Deliver { session: target, packet: hopped },
            Err(error) => Verdict::Refuse { error, reply: None },
        }
    }
}

/// What a client packet that leaves the engine is: well-formed, from an
/// address of its session, to an allowed destination, within the MTU, one hop
/// older and otherwise the same.
pub proof fn lemma_forwarded_is_valid(
    e: ForwardingEngine,
    from: SessionId,
    assigned: Seq<AssignedAddress>,
    packet: Seq<u8>,
)
    ensures
        match e.client_verdict(from, assigned, packet) {
            VerdictView::Refuse { .. } => true,
            VerdictView::Deliver { session, packet: out } => {
                &&& packet_info(packet) matches Ok(info) && source_allowed(assigned, info.src)
                    && !destination_refused(info.dst) && e.session_allows(
                    from,
                    info.dst,
                    info.protocol,
                ) && e.session_allows(session, info.src, info.protocol)
                &&& packet_info(out) == packet_info(packet)
                &&& out.len() == packet.len() <= e.spec_mtu()
                &&& out.len() <= e.spec_session_mtu(session)
            },
            VerdictView::Network { packet: out } => {
                &&& packet_info(packet) matches Ok(info) && source_allowed(assigned, info.src)
                    && !destination_refused(info.dst) && e.session_allows(
                    from,
                    info.dst,
                    info.protocol,
                )
                &&& packet_info(out) == packet_info(packet)
                &&& out.len() == packet.len() <= e.spec_mtu()
            },
        },
{
    if packet_info(packet) is Ok && after_hop(packet) is Ok {
        packet::lemma_hop_keeps_packet(packet);
    }
}

/// The hops a packet has left: TTL or Hop Limit.
pub open spec fn hops_left(packet: Seq<u8>) -> u8 {
    if packet[0] / 16 == 4 {
        packet[8]
    } else {
        packet[7]
    }
}

/// A client packet that breaks no rule leaves: to the session that its
/// destination leads to, or else to the network where there is one; whole,
/// and one hop later.
pub proof fn lemma_client_packet_leaves(
    e: ForwardingEngine,
    from: SessionId,
    assigned: Seq<AssignedAddress>,
    packet: Seq<u8>,
    info: PacketInfo,
)
    requires
        packet_info(packet) == Ok::<PacketInfo, ForwardingError>(info),
        source_allowed(assigned, info.src),
        packet.len() <= e.spec_mtu(),
        !destination_refused(info.dst),
        e.session_allows(from, info.dst, info.protocol),
        hops_left(packet) >= 2,
    ensures
        match e.table().spec_lookup(info.dst, info.protocol) {
            Some(target) => e.session_allows(target, info.src, info.protocol) && packet.len()
                <= e.spec_session_mtu(target) ==> (e.client_verdict(from, assigned, packet) matches
                VerdictView::Deliver { session, packet: out } && session == target
                && one_hop_later(packet, out) && packet_info(out) == packet_info(packet)),
            None => e.tun() ==> (e.client_verdict(from, assigned, packet) matches
                VerdictView::Network { packet: out } && one_hop_later(packet, out)
                && packet_info(out) == packet_info(packet)),
        },
{
    packet::lemma_hop(packet);
}

/// A client packet is dropped only for the reason it is given, and a sender
/// that may be told is told that reason, about the packet it sent.
pub proof fn lemma_client_refusals(
    e: ForwardingEngine,
    from: SessionId,
    assigned: Seq<AssignedAddress>,
    packet: Seq<u8>,
    error: ForwardingError,
    reply: Option<Seq<u8>>,
)
    requires
        e.client_verdict(from, assigned, packet) == (VerdictView::Refuse { error, reply }),
    ensures
        match packet_info(packet) {
            Err(fault) => error == fault && reply is None,
            Ok(info) => {
                let next = e.table().spec_lookup(info.dst, info.protocol);
                let known = e.states().dom().contains(from.0);
                match error {
                    ForwardingError::SourceAddressViolation(a) => a == info.src && !source_allowed(
                        assigned,
                        info.src,
                    ) && reply is None,
                    ForwardingError::LinkLocalDrop => destination_refused(info.dst) && reply
                        is None,
                    ForwardingError::MtuExceeded => exists|mtu: u16, quoted: Seq<u8>|
                        {
                            &&& packet.len() > e.spec_mtu() && mtu == e.spec_mtu() && quoted
                                == packet || (next matches Some(target) && packet.len()
                                > e.spec_session_mtu(target) && mtu == mtu_field(
                                e.spec_session_mtu(target),
                            ) && one_hop_later(packet, quoted))
                            &&& known ==> reply == #[trigger] error_about(
                                IcmpErrorKind::PacketTooBig { mtu },
                                e.error_source(),
                                quoted,
                            )
                        },
                    ForwardingError::NotAllowed(a) => a == info.dst && exists|quoted: Seq<u8>|
                        {
                            &&& !e.session_allows(from, info.dst, info.protocol) && quoted == packet
                                || (next matches Some(target) && !e.session_allows(
                                target,
                                info.src,
                                info.protocol,
                            ) && one_hop_later(packet, quoted))
                            &&& known ==> reply == #[trigger] error_about(
                                IcmpErrorKind::AdminProhibited,
                                e.error_source(),
                                quoted,
                            )
                        },
                    ForwardingError::TtlExpired => hops_left(packet) <= 1 && (known ==> reply
                        == error_about(IcmpErrorKind::TimeExceeded, e.error_source(), packet)),
                    ForwardingError::NoRoute => next is None && !e.tun() && exists|quoted: Seq<u8>|
                        one_hop_later(packet, quoted) && (known ==> reply
                            == #[trigger] error_about(
                            IcmpErrorKind::NoRoute,
                            e.error_source(),
                            quoted,
                        )),
                    _ => false,
                }
            },
        },
        !e.states().dom().contains(from.0) ==> reply is None,
{
    if packet_info(packet) is Ok {
        packet::lemma_hop(packet);
        let hopped = after_hop(packet)->Ok_0;
        let source = e.error_source();
        let info = packet_info(packet)->Ok_0;
        let own = error_about(IcmpErrorKind::PacketTooBig { mtu: e.spec_mtu() }, source, packet);
        let denied = error_about(IcmpErrorKind::AdminProhibited, source, packet);
        let barred = error_about(IcmpErrorKind::AdminProhibited, source, hopped);
        let lost = error_about(IcmpErrorKind::NoRoute, source, hopped);
        if let Some(target) = e.table().spec_lookup(info.dst, info.protocol) {
            let theirs = error_about(
                IcmpErrorKind::PacketTooBig { mtu: mtu_field(e.spec_session_mtu(target)) },
                source,
                hopped,
            );
        }
    }
}

/// What the network sends reaches the session that its destination leads to,
/// whole and one hop later, exactly if the session may hear from the sender,
/// the packet fits its tunnel and outlives the hop. Otherwise it is dropped
/// and the network is told nothing; it never goes back to the network.
pub proof fn lemma_network_packet(e: ForwardingEngine, packet: Seq<u8>)
    ensures
        match (packet_info(packet), e.network_verdict(packet)) {
            (Err(fault), v) => v == (VerdictView::Refuse { error: fault, reply: None }),
            (Ok(info), VerdictView::Deliver { session, packet: out }) => {
                &&& e.table().spec_lookup(info.dst, info.protocol) == Some(session)
                &&& e.session_allows(session, info.src, info.protocol)
                &&& packet.len() <= e.spec_session_mtu(session)
                &&& hops_left(packet) >= 2
                &&& one_hop_later(packet, out)
                &&& packet_info(out) == packet_info(packet)
            },
            (Ok(info), VerdictView::Network { .. }) => false,
            (Ok(info), VerdictView::Refuse { error, reply }) => {
                let next = e.table().spec_lookup(info.dst, info.protocol);
                &&& reply is None
                &&& match next {
                    None => error == ForwardingError::NoRoute,
                    Some(target) => if !e.session_allows(target, info.src, info.protocol) {
                        error == ForwardingError::NotAllowed(info.src)
                    } else if packet.len() > e.spec_session_mtu(target) {
                        error == ForwardingError::MtuExceeded
                    } else {
                        error == ForwardingError::TtlExpired && hops_left(packet) <= 1
                    },
                }
            },
        },
{
    if packet_info(packet) is Ok {
        packet::lemma_hop(packet);
    }
}

/// A session pays for every packet it sends, and no other session does. What
/// it cannot pay for is dropped without a word; what it can pay for, and
/// everything of a session without limits, is judged by the rules alone.
pub proof fn lemma_rate_applies(
    before: ForwardingEngine,
    after: ForwardingEngine,
    from: SessionId,
    assigned: Seq<AssignedAddress>,
    packet: Seq<u8>,
    now: u64,
    v: VerdictView,
)
    requires
        forwarded_at(before, after, from, assigned, packet, now, v),
        packet.len() <= u64::MAX,
    ensures
        after.table() == before.table(),
        forall|id: u64|
            id != from.0 ==> (#[trigger] after.states().dom().contains(id)
                <==> before.states().dom().contains(id)) && after.states()[id]
                == before.states()[id],
        match before.limiter_of(from) {
            None => v == before.client_verdict(from, assigned, packet),
            Some(l) => {
                let (admitted, buckets) = admission(
                    l.spec_limits(),
                    l.buckets(),
                    packet.len() as u64,
                    now,
                );
                &&& after.limiter_of(from) matches Some(m) && m.buckets() == buckets
                    && m.spec_limits() == l.spec_limits()
                &&& admitted ==> v == before.client_verdict(from, assigned, packet)
                &&& !admitted ==> v == (VerdictView::Refuse {
                    error: ForwardingError::RateLimited,
                    reply: None,
                })
            },
        },
{
    assert forall|id: u64| id != from.0 implies (#[trigger] after.states().dom().contains(id)
        <==> before.states().dom().contains(id)) && after.states()[id] == before.states()[id] by {
        assert(after.states().remove(from.0)[id] == before.states().remove(from.0)[id]);
    }
}

/// A verdict that was carried out counts as what it was; one that could not
/// be is reported as why it could not.
pub proof fn lemma_concluded(v: VerdictView, sent: Sent)
    ensures
        (v matches VerdictView::Refuse { error, .. } ==> conclusion(v, sent) == Err::<
            Forwarded,
            ForwardingError,
        >(error)),
        (v matches VerdictView::Deliver { session, .. } ==> (sent == Sent::Taken <==> conclusion(
            v,
            sent,
        ) == Ok::<Forwarded, ForwardingError>(Forwarded::Hairpin(session)))),
        v is Network ==> (sent == Sent::Taken <==> conclusion(v, sent) == Ok::<
            Forwarded,
            ForwardingError,
        >(Forwarded::Tun)),
        v !is Refuse ==> (sent == Sent::TooBig <==> conclusion(v, sent) == Err::<
            Forwarded,
            ForwardingError,
        >(ForwardingError::MtuExceeded)),
        v !is Refuse ==> (sent == Sent::Full <==> conclusion(v, sent) == Err::<
            Forwarded,
            ForwardingError,
        >(ForwardingError::Congested)),
{
}

/// A spoofed or malformed packet is never answered.
pub proof fn lemma_spoofers_get_no_reply(
    e: ForwardingEngine,
    from: SessionId,
    assigned: Seq<AssignedAddress>,
    packet: Seq<u8>,
)
    requires
        match packet_info(packet) {
            Ok(info) => !source_allowed(assigned, info.src),
            Err(_) => true,
        },
    ensures
        e.client_verdict(from, assigned, packet) matches VerdictView::Refuse { reply: None, .. },
{
}

/// Frame a packet for a session's connection: an HTTP Datagram on `qsid`. A
/// datagram larger than the connection takes (`max`) is refused: the path
/// narrowed since the packet was checked.
pub fn frame_for_session(qsid: u64, packet: Bytes, max: Option<usize>) -> (r: Result<
    Bytes,
    ForwardingError,
>)
    requires
        qsid <= VARINT_MAX,
        frozen(packet).len() + 16 <= isize::MAX,
    ensures
        ({
            let wire = quic_datagram_bytes(qsid, CONTEXT_ID_IP_PACKET, frozen(packet));
            match max {
                Some(m) => if wire.len() > m {
                    r == Err::<Bytes, ForwardingError>(ForwardingError::MtuExceeded)
                } else {
                    r is Ok && frozen(r->Ok_0) == wire
                },
                None => r is Ok && frozen(r->Ok_0) == wire,
            }
        }),
{
    let wire = encode_quic_datagram(qsid, &IpProxyingDatagram::ip_packet(packet));
    match max {
        Some(m) => {
            if frozen_slice(&wire).len() > m {
                return Err(ForwardingError::MtuExceeded);
            }
        },
        None => {},
    }
    Ok(wire)
}

/// How handing a packet to its session or to the network went.
#[derive(Debug, Clone, Copy, PartialEq, Eq, Structural)]
pub enum Sent {
    /// It was taken.
    Taken,
    /// It did not fit the connection.
    TooBig,
    /// The queue was full.
    Full,
}

/// What comes of a verdict, given what the next hop did with the packet.
pub open spec fn conclusion(verdict: VerdictView, sent: Sent) -> Result<
    Forwarded,
    ForwardingError,
> {
    match (verdict, sent) {
        (VerdictView::Refuse { error, .. }, _) => Err(error),
        (VerdictView::Deliver { session, .. }, Sent::Taken) => Ok(Forwarded::Hairpin(session)),
        (VerdictView::Network { .. }, Sent::Taken) => Ok(Forwarded::Tun),
        (_, Sent::TooBig) => Err(ForwardingError::MtuExceeded),
        (_, Sent::Full) => Err(ForwardingError::Congested),
    }
}

/// What a client packet ended as, once its verdict was carried out. Datagram
/// semantics: a full queue drops the packet instead of blocking.
pub fn conclude(verdict: &Verdict, sent: Sent) -> (r: Result<Forwarded, ForwardingError>)
    ensures
        r == conclusion(verdict@, sent),
{
    match verdict {
        Verdict::Refuse { error, .. } => Err(*error),
        Verdict::Deliver { session, .. } => match sent {
            Sent::Taken => Ok(Forwarded::Hairpin(*session)),
            Sent::TooBig => Err(ForwardingError::MtuExceeded),
            Sent::Full => Err(ForwardingError::Congested),
        },
        Verdict::Network { .. } => match sent {
            Sent::Taken => Ok(Forwarded::Tun),
            Sent::TooBig => Err(ForwardingError::MtuExceeded),
            Sent::Full => Err(ForwardingError::Congested),
        },
    }
}

/// A session may reach an address under a protocol exactly if it is registered
/// and a range of its policy is of the address's family, holds the address, and
/// is for the protocol or for all; ICMP is for all.
pub proof fn lemma_policy(e: ForwardingEngine, id: SessionId, addr: IpAddr, proto: u8)
    ensures
        e.session_allows(id, addr, proto) <==> e.states().dom().contains(id.0) && exists|i: int|
            {
                let r = #[trigger] e.states()[id.0].policy@[i];
                &&& 0 <= i < e.states()[id.0].policy@.len()
                &&& r.ip_version == if addr is V4 {
                    4int
                } else {
                    6
                }
                &&& r.start_ip.spec_value() <= addr.spec_value()
                &&& addr.spec_value() <= r.end_ip.spec_value()
                &&& r.ip_protocol == 0 || r.ip_protocol == proto || (addr is V4 && proto == 1) || (
                addr is V6 && proto == 58)
            },
{
    let p = e.states()[id.0].policy@;
    if e.states().dom().contains(id.0) && ranges_allow(p, addr, proto) {
        let i = choose|i: int| 0 <= i < p.len() && (#[trigger] p[i]).spec_contains(addr, proto);
        assert(p[i].ip_version == addr.spec_version());
    }
}

/// A packet for a session must fit the session's own MTU, or that of the engine
/// for a session that is not registered; an error tells an MTU as it is, as
/// long as it fits the field.
pub proof fn lemma_session_mtu(e: ForwardingEngine, id: SessionId, mtu: usize)
    ensures
        e.states().dom().contains(id.0) ==> e.spec_session_mtu(id) == e.states()[id.0].mtu,
        !e.states().dom().contains(id.0) ==> e.spec_session_mtu(id) == e.spec_mtu(),
        mtu <= 0xffff ==> mtu_field(mtu) == mtu,
{
}

/// A new session has a limiter exactly if packets or bytes are limited, and may
/// then send one second's worth of each at once.
pub proof fn lemma_starts_full(l: Option<SessionLimiter>, limits: RateLimits)
    requires
        starts_full(l, limits),
    ensures
        l is Some <==> limits.packets_per_sec > 0 || limits.bytes_per_sec > 0,
        l matches Some(l) ==> l.spec_limits() == limits && l.buckets().packet_tokens
            == limits.packets_per_sec && l.buckets().byte_tokens == limits.bytes_per_sec,
{
}

} // verus!
