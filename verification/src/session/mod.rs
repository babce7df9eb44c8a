//! Per-tunnel session state and the session table.

pub mod auth;
pub mod handler;

use std::sync::Arc;

use dashmap::DashMap;
use vstd::prelude::*;

use crate::capsule::{AssignedAddress, IpAddressRange};
use crate::clock::Clock;
use crate::error::ProxyError;
use crate::text::{decimal, push_decimal};

verus! {

/// Unique identifier for a CONNECT-IP tunnel session.
///
/// The value is the HTTP/3 request stream ID that carries the tunnel, which
/// is unique per connection; combined with a connection counter it is made
/// globally unique (see [`SessionId::compose`]).
#[derive(Debug, Clone, Copy, Hash, Eq, PartialEq, Structural)]
pub struct SessionId(pub u64);

/// How many stream ids one connection has room for.
pub const STREAM_ID_SPACE: u64 = 0x100_0000_0000;

/// How many connections are told apart.
pub const CONN_SEQ_SPACE: u64 = 0x100_0000;

impl SessionId {
    /// The id of stream `stream_id` on connection `conn_seq`.
    pub open spec fn spec_compose(conn_seq: u64, stream_id: u64) -> SessionId {
        SessionId(
            ((conn_seq % CONN_SEQ_SPACE) * STREAM_ID_SPACE + stream_id % STREAM_ID_SPACE) as u64,
        )
    }

    pub open spec fn spec_stream_id(self) -> u64 {
        self.0 % STREAM_ID_SPACE
    }

    pub open spec fn spec_conn_seq(self) -> u64 {
        self.0 / STREAM_ID_SPACE
    }

    /// Compose a globally unique session ID from a per-endpoint connection
    /// counter and the request stream ID.
    ///
    /// Stream IDs are 62-bit values but request streams are client-initiated
    /// bidirectional (id % 4 == 0) and in practice small; 40 bits of stream
    /// ID space (~275 billion streams per connection) is retained.
    pub fn compose(conn_seq: u64, stream_id: u64) -> (id: Self)
        ensures
            id == SessionId::spec_compose(conn_seq, stream_id),
    {
        SessionId((conn_seq % CONN_SEQ_SPACE) * STREAM_ID_SPACE + stream_id % STREAM_ID_SPACE)
    }

    /// The request stream ID on its connection.
    pub fn stream_id(&self) -> (id: u64)
        ensures
            id == self.spec_stream_id(),
    {
        self.0 % STREAM_ID_SPACE
    }

    /// The connection sequence number this session belongs to.
    pub fn conn_seq(&self) -> (seq: u64)
        ensures
            seq == self.spec_conn_seq(),
    {
        self.0 / STREAM_ID_SPACE
    }

    /// The connection and the stream, with a colon between.
    pub fn to_text(&self) -> (s: String)
        ensures
            s@ == decimal(self.spec_conn_seq() as nat) + seq![':'] + decimal(
                self.spec_stream_id() as nat,
            ),
    {
        let mut s = String::new();
        push_decimal(&mut s, self.conn_seq());
        s.push(':');
        push_decimal(&mut s, self.stream_id());
        proof {
            assert(s@ =~= decimal(self.spec_conn_seq() as nat) + seq![':'] + decimal(
                self.spec_stream_id() as nat,
            ));
        }
        s
    }
}

/// A composed id gives back the connection and the stream it was made from,
/// so no two streams share one.
pub proof fn lemma_compose_roundtrip(conn_seq: u64, stream_id: u64)
    requires
        conn_seq < CONN_SEQ_SPACE,
        stream_id < STREAM_ID_SPACE,
    ensures
        SessionId::spec_compose(conn_seq, stream_id).spec_conn_seq() == conn_seq,
        SessionId::spec_compose(conn_seq, stream_id).spec_stream_id() == stream_id,
{
}

/// What a CONNECT-IP request asked to reach.
#[derive(Debug)]
pub struct RequestScope {
    /// The target host or prefix; absent for any.
    pub target: Option<String>,
    /// The IP protocol; absent for any.
    pub ip_proto: Option<u8>,
}

/// Per-session tunnel state.
#[derive(Debug)]
pub struct TunnelSession {
    pub id: SessionId,
    pub scope: RequestScope,
    /// IP addresses assigned to the client.
    pub assigned_addresses: Vec<AssignedAddress>,
    /// Routes advertised to the client.
    pub advertised_routes: Vec<IpAddressRange>,
    /// Routes received from the client (site-to-site).
    pub client_routes: Vec<IpAddressRange>,
    /// Addresses the client assigned to the proxy end (site-to-site).
    pub proxy_addresses: Vec<AssignedAddress>,
    /// Time of last activity for idle timeout, on the session table's clock.
    pub last_activity: u64,
}

impl TunnelSession {
    /// A session that starts at `now`.
    pub fn new(id: SessionId, scope: RequestScope, now: u64) -> (s: Self)
        ensures
            s.id == id,
            s.scope == scope,
            s.assigned_addresses@.len() == 0,
            s.advertised_routes@.len() == 0,
            s.client_routes@.len() == 0,
            s.proxy_addresses@.len() == 0,
            s.last_activity == now,
    {
        TunnelSession {
            id,
            scope,
            assigned_addresses: Vec::new(),
            advertised_routes: Vec::new(),
            client_routes: Vec::new(),
            proxy_addresses: Vec::new(),
            last_activity: now,
        }
    }
}

/// What a map from session ids to sessions holds.
pub uninterp spec fn session_map(m: DashMap<u64, TunnelSession>) -> Map<u64, TunnelSession>;

/// No session at all.
pub open spec fn no_tunnels() -> Map<u64, TunnelSession> {
    Map::empty()
}

/// `DashMap::new`: an empty map.
#[verifier::external_body]
fn session_map_new() -> (m: DashMap<u64, TunnelSession>)
    ensures
        session_map(m) == no_tunnels(),
{
    DashMap::new()
}

/// `DashMap::insert`: sets the value of a key.
#[verifier::external_body]
fn session_map_insert(m: &mut DashMap<u64, TunnelSession>, id: u64, session: TunnelSession)
    ensures
        session_map(*final(m)) == session_map(*old(m)).insert(id, session),
{
    m.insert(id, session);
}

/// The value of a key.
pub open spec fn tunnel_at(m: Map<u64, TunnelSession>, id: u64) -> Option<TunnelSession> {
    if m.dom().contains(id) {
        Some(m[id])
    } else {
        None
    }
}

/// `DashMap::remove`: takes a key and its value out, if it is there.
#[verifier::external_body]
fn session_map_remove(m: &mut DashMap<u64, TunnelSession>, id: u64) -> (r: Option<TunnelSession>)
    ensures
        session_map(*final(m)) == session_map(*old(m)).remove(id),
        r == tunnel_at(session_map(*old(m)), id),
{
    m.remove(&id).map(|kv| kv.1)
}

/// The number of keys, of which there are finitely many.
pub open spec fn has_len(m: Map<u64, TunnelSession>, n: usize) -> bool {
    m.dom().finite() && m.dom().len() == n
}

/// `DashMap::len`: the number of keys.
#[verifier::external_body]
fn session_map_len(m: &DashMap<u64, TunnelSession>) -> (n: usize)
    ensures
        has_len(session_map(*m), n),
{
    m.len()
}

/// `DashMap::view`, picking when the session was last active.
#[verifier::external_body]
fn session_map_last_activity(m: &DashMap<u64, TunnelSession>, id: u64) -> (r: Option<u64>)
    ensures
        r == (match tunnel_at(session_map(*m), id) {
            Some(s) => Some(s.last_activity),
            None => None,
        }),
{
    m.view(&id, |_, s| s.last_activity)
}

/// What a map from session ids to their assigned addresses holds.
pub uninterp spec fn snapshot_map(
    m: DashMap<u64, Arc<Vec<AssignedAddress>>>,
) -> Map<u64, Seq<AssignedAddress>>;

/// No session at all.
pub open spec fn no_snapshots() -> Map<u64, Seq<AssignedAddress>> {
    Map::empty()
}

/// `DashMap::new`: an empty map.
#[verifier::external_body]
fn snapshot_map_new() -> (m: DashMap<u64, Arc<Vec<AssignedAddress>>>)
    ensures
        snapshot_map(m) == no_snapshots(),
{
    DashMap::new()
}

/// `DashMap::insert`: sets the value of a key.
#[verifier::external_body]
fn snapshot_map_insert(
    m: &mut DashMap<u64, Arc<Vec<AssignedAddress>>>,
    id: u64,
    addrs: Arc<Vec<AssignedAddress>>,
)
    ensures
        snapshot_map(*final(m)) == snapshot_map(*old(m)).insert(id, addrs@),
{
    m.insert(id, addrs);
}

/// The value of a key.
pub open spec fn snapshot_at(m: Map<u64, Seq<AssignedAddress>>, id: u64) -> Option<
    Seq<AssignedAddress>,
> {
    if m.dom().contains(id) {
        Some(m[id])
    } else {
        None
    }
}

/// The view of an optional snapshot.
pub open spec fn snapshot_view(a: Option<Arc<Vec<AssignedAddress>>>) -> Option<
    Seq<AssignedAddress>,
> {
    match a {
        Some(a) => Some(a@),
        None => None,
    }
}

/// `DashMap::get`: the value of a key, if it has one.
#[verifier::external_body]
fn snapshot_map_get(m: &DashMap<u64, Arc<Vec<AssignedAddress>>>, id: u64) -> (r: Option<
    Arc<Vec<AssignedAddress>>,
>)
    ensures
        snapshot_view(r) == snapshot_at(snapshot_map(*m), id),
{
    m.get(&id).map(|a| a.clone())
}

/// `DashMap::remove`: takes a key out.
#[verifier::external_body]
fn snapshot_map_remove(m: &mut DashMap<u64, Arc<Vec<AssignedAddress>>>, id: u64)
    ensures
        snapshot_map(*final(m)) == snapshot_map(*old(m)).remove(id),
{
    m.remove(&id);
}

/// A copy of some addresses.
pub fn copy_addrs(addrs: &Vec<AssignedAddress>) -> (v: Vec<AssignedAddress>)
    ensures
        v@ == addrs@,
{
    let mut v: Vec<AssignedAddress> = Vec::new();
    let mut i: usize = 0;
    while i < addrs.len()
        invariant
            i <= addrs@.len(),
            v@ == addrs@.take(i as int),
        decreases addrs@.len() - i,
    {
        v.push(addrs[i]);
        i = i + 1;
        proof {
            assert(addrs@.take(i as int) =~= addrs@.take(i - 1).push(addrs@[i - 1]));
        }
    }
    proof {
        assert(addrs@.take(addrs@.len() as int) =~= addrs@);
    }
    v
}

/// Session table.
#[derive(Debug)]
pub struct SessionManager {
    sessions: DashMap<u64, TunnelSession>,
    /// Hot-path snapshot of assigned addresses, read per received datagram.
    assigned: DashMap<u64, Arc<Vec<AssignedAddress>>>,
    max_sessions: usize,
    clock: Clock,
}

impl SessionManager {
    pub closed spec fn sessions(self) -> Map<u64, TunnelSession> {
        session_map(self.sessions)
    }

    pub closed spec fn snapshots(self) -> Map<u64, Seq<AssignedAddress>> {
        snapshot_map(self.assigned)
    }

    pub closed spec fn limit(self) -> usize {
        self.max_sessions
    }

    /// The table is full.
    pub open spec fn full(self) -> bool {
        self.limit() > 0 && self.sessions().dom().len() >= self.limit()
    }

    pub fn new(max_sessions: usize) -> (m: Self)
        ensures
            m.sessions() == no_tunnels(),
            m.snapshots() == no_snapshots(),
            m.limit() == max_sessions,
    {
        SessionManager {
            sessions: session_map_new(),
            assigned: snapshot_map_new(),
            max_sessions,
            clock: Clock::start(),
        }
    }

    /// The time on the table's clock, in nanoseconds.
    pub fn now(&self) -> u64 {
        self.clock.now()
    }

    /// Register a new session, enforcing the session limit. A limit of zero
    /// is none.
    pub fn insert(&mut self, session: TunnelSession) -> (r: Result<(), ProxyError>)
        ensures
            final(self).limit() == old(self).limit(),
            r is Ok <==> !old(self).full(),
            r is Ok ==> final(self).sessions() == old(self).sessions().insert(
                session.id.0,
                session,
            ) && final(self).snapshots() == old(self).snapshots().insert(
                session.id.0,
                session.assigned_addresses@,
            ),
            r matches Err(e) ==> {
                &&& e matches ProxyError::InvalidRequest(t)
                &&& t@ == "session limit reached ("@ + decimal(old(self).limit() as nat) + ")"@
                &&& final(self).sessions() == old(self).sessions()
                &&& final(self).snapshots() == old(self).snapshots()
            },
            old(self).limit() > 0 && old(self).sessions().dom().len() <= old(self).limit()
                ==> final(self).sessions().dom().len() <= final(self).limit(),
    {
        let n: usize = session_map_len(&self.sessions);
        if self.max_sessions > 0 && n >= self.max_sessions {
            let mut t = String::from_str("session limit reached (");
            push_decimal(&mut t, self.max_sessions as u64);
            t.append(")");
            return Err(ProxyError::InvalidRequest(t));
        }
        let id: u64 = session.id.0;
        let addrs = copy_addrs(&session.assigned_addresses);
        snapshot_map_insert(&mut self.assigned, id, Arc::new(addrs));
        session_map_insert(&mut self.sessions, id, session);
        Ok(())
    }

    /// Replace the session's assigned addresses (and its hot-path snapshot).
    pub fn set_assigned(&mut self, id: SessionId, addrs: Vec<AssignedAddress>)
        ensures
            final(self).limit() == old(self).limit(),
            final(self).snapshots() == old(self).snapshots().insert(id.0, addrs@),
            final(self).sessions() == with_session(
                old(self).sessions(),
                id,
                |s: TunnelSession| TunnelSession { assigned_addresses: addrs, ..s },
            ),
    {
        let snapshot = copy_addrs(&addrs);
        match session_map_remove(&mut self.sessions, id.0) {
            Some(mut s) => {
                s.assigned_addresses = addrs;
                session_map_insert(&mut self.sessions, id.0, s);
            },
            None => {},
        }
        snapshot_map_insert(&mut self.assigned, id.0, Arc::new(snapshot));
        proof {
            assert(self.sessions() =~= with_session(
                old(self).sessions(),
                id,
                |s: TunnelSession| TunnelSession { assigned_addresses: addrs, ..s },
            ));
        }
    }

    /// Record client-advertised routes (site-to-site).
    pub fn set_client_routes(&mut self, id: SessionId, routes: Vec<IpAddressRange>)
        ensures
            final(self).limit() == old(self).limit(),
            final(self).snapshots() == old(self).snapshots(),
            final(self).sessions() == with_session(
                old(self).sessions(),
                id,
                |s: TunnelSession| TunnelSession { client_routes: routes, ..s },
            ),
    {
        match session_map_remove(&mut self.sessions, id.0) {
            Some(mut s) => {
                s.client_routes = routes;
                session_map_insert(&mut self.sessions, id.0, s);
            },
            None => {},
        }
        proof {
            assert(self.sessions() =~= with_session(
                old(self).sessions(),
                id,
                |s: TunnelSession| TunnelSession { client_routes: routes, ..s },
            ));
        }
    }

    /// Record addresses the client assigned to the proxy (site-to-site).
    pub fn set_proxy_addresses(&mut self, id: SessionId, addrs: Vec<AssignedAddress>)
        ensures
            final(self).limit() == old(self).limit(),
            final(self).snapshots() == old(self).snapshots(),
            final(self).sessions() == with_session(
                old(self).sessions(),
                id,
                |s: TunnelSession| TunnelSession { proxy_addresses: addrs, ..s },
            ),
    {
        match session_map_remove(&mut self.sessions, id.0) {
            Some(mut s) => {
                s.proxy_addresses = addrs;
                session_map_insert(&mut self.sessions, id.0, s);
            },
            None => {},
        }
        proof {
            assert(self.sessions() =~= with_session(
                old(self).sessions(),
                id,
                |s: TunnelSession| TunnelSession { proxy_addresses: addrs, ..s },
            ));
        }
    }

    /// Snapshot of assigned addresses for datagram-path validation.
    pub fn assigned_snapshot(&self, id: SessionId) -> (r: Option<Arc<Vec<AssignedAddress>>>)
        ensures
            snapshot_view(r) == snapshot_at(self.snapshots(), id.0),
    {
        snapshot_map_get(&self.assigned, id.0)
    }

    /// Record activity of a session at `now`.
    pub fn touch_at(&mut self, id: SessionId, now: u64)
        ensures
            final(self).limit() == old(self).limit(),
            final(self).snapshots() == old(self).snapshots(),
            final(self).sessions() == with_session(
                old(self).sessions(),
                id,
                |s: TunnelSession| TunnelSession { last_activity: now, ..s },
            ),
    {
        match session_map_remove(&mut self.sessions, id.0) {
            Some(mut s) => {
                s.last_activity = now;
                session_map_insert(&mut self.sessions, id.0, s);
            },
            None => {},
        }
        proof {
            assert(self.sessions() =~= with_session(
                old(self).sessions(),
                id,
                |s: TunnelSession| TunnelSession { last_activity: now, ..s },
            ));
        }
    }

    /// Record activity of a session now, and tell what the clock reads.
    pub fn touch(&mut self, id: SessionId) -> (now: u64)
        ensures
            final(self).limit() == old(self).limit(),
            final(self).snapshots() == old(self).snapshots(),
            final(self).sessions() == touched(old(self).sessions(), id, now),
    {
        let now: u64 = self.now();
        self.touch_at(id, now);
        proof {
            assert(self.sessions() =~= touched(old(self).sessions(), id, now));
        }
        now
    }

    /// Whether a session was not active for `timeout` nanoseconds, at `now`.
    /// A session that is not there is not idle.
    pub fn idle_at(&self, id: SessionId, now: u64, timeout: u64) -> (v: bool)
        ensures
            v == match tunnel_at(self.sessions(), id.0) {
                Some(s) => now - s.last_activity >= timeout,
                None => false,
            },
    {
        match session_map_last_activity(&self.sessions, id.0) {
            Some(last_activity) => is_idle(last_activity, now, timeout),
            None => false,
        }
    }

    pub fn remove(&mut self, id: SessionId)
        ensures
            final(self).limit() == old(self).limit(),
            final(self).sessions() == old(self).sessions().remove(id.0),
            final(self).snapshots() == old(self).snapshots().remove(id.0),
    {
        let _ = session_map_remove(&mut self.sessions, id.0);
        snapshot_map_remove(&mut self.assigned, id.0);
    }

    pub fn len(&self) -> (n: usize)
        ensures
            has_len(self.sessions(), n),
    {
        session_map_len(&self.sessions)
    }

    pub fn is_empty(&self) -> (v: bool)
        ensures
            v == (self.sessions().dom() == Set::<u64>::empty()),
    {
        let n: usize = session_map_len(&self.sessions);
        proof {
            if n == 0 {
                assert(self.sessions().dom() =~= Set::<u64>::empty()) by {
                    vstd::set_lib::lemma_set_empty_equivalency_len(self.sessions().dom());
                }
            }
        }
        n == 0
    }
}

/// The table with one session changed; unchanged if the session is unknown.
pub open spec fn with_session(
    m: Map<u64, TunnelSession>,
    id: SessionId,
    change: spec_fn(TunnelSession) -> TunnelSession,
) -> Map<u64, TunnelSession> {
    if m.dom().contains(id.0) {
        m.insert(id.0, change(m[id.0]))
    } else {
        m
    }
}

/// The table after a session was active at `now`.
pub open spec fn touched(m: Map<u64, TunnelSession>, id: SessionId, now: u64) -> Map<
    u64,
    TunnelSession,
> {
    with_session(m, id, |s: TunnelSession| TunnelSession { last_activity: now, ..s })
}

/// A session that was not active for `timeout` nanoseconds is idle.
fn is_idle(last_activity: u64, now: u64, timeout: u64) -> (v: bool)
    ensures
        v == (now - last_activity >= timeout),
{
    now >= last_activity && now - last_activity >= timeout
}

/// Activity of a session is recorded at that session alone, and of it alone
/// the time of the last activity changes; of an unknown session nothing is
/// recorded.
pub proof fn lemma_touched(m: Map<u64, TunnelSession>, id: SessionId, now: u64, other: u64)
    ensures
        touched(m, id, now).dom() == m.dom(),
        m.dom().contains(id.0) ==> touched(m, id, now)[id.0] == (TunnelSession {
            last_activity: now,
            ..m[id.0]
        }),
        other != id.0 && m.dom().contains(other) ==> touched(m, id, now)[other] == m[other],
{
    assert(touched(m, id, now).dom() =~= m.dom());
}

} // verus!
