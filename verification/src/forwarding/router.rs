//! Route table: destination address → session, for reverse-path (network →
//! client) forwarding and client↔client hairpin routing.

use dashmap::DashMap;
use vstd::prelude::*;

use crate::capsule::IpAddressRange;
use crate::net::{IpAddr, IpNet};
use crate::session::SessionId;
use crate::subnets::{between, held, lemma_range_split, range_prefixes, split_range};

verus! {

/// The concurrent hash map of the `dashmap` crate.
#[verifier::external_type_specification]
#[verifier::external_body]
#[verifier::reject_recursive_types(K)]
#[verifier::reject_recursive_types(V)]
#[verifier::reject_recursive_types(S)]
pub struct ExDashMap<K, V, S>(DashMap<K, V, S>);

/// What a map from addresses to sessions holds. An address is keyed by its IP
/// version and its number.
pub uninterp spec fn addr_map(m: DashMap<(u8, u128), u64>) -> Map<(u8, u128), u64>;

/// No address at all.
pub open spec fn no_addrs() -> Map<(u8, u128), u64> {
    Map::empty()
}

/// `DashMap::new`: an empty map.
#[verifier::external_body]
pub(crate) fn addr_map_new() -> (m: DashMap<(u8, u128), u64>)
    ensures
        addr_map(m) == no_addrs(),
{
    DashMap::new()
}

/// `DashMap::insert`: sets the value of a key.
#[verifier::external_body]
pub(crate) fn addr_map_insert(m: &mut DashMap<(u8, u128), u64>, key: (u8, u128), session: u64)
    ensures
        addr_map(*final(m)) == addr_map(*old(m)).insert(key, session),
{
    m.insert(key, session);
}

/// `DashMap::get`: the value of a key, if it has one.
#[verifier::external_body]
pub(crate) fn addr_map_get(m: &DashMap<(u8, u128), u64>, key: (u8, u128)) -> (r: Option<u64>)
    ensures
        r == (if addr_map(*m).dom().contains(key) {
            Some(addr_map(*m)[key])
        } else {
            None
        }),
{
    m.get(&key).map(|v| *v)
}

/// `DashMap::remove`: takes a key out.
#[verifier::external_body]
pub(crate) fn addr_map_remove(m: &mut DashMap<(u8, u128), u64>, key: (u8, u128))
    ensures
        addr_map(*final(m)) == addr_map(*old(m)).remove(key),
{
    m.remove(&key);
}

/// The entries that do not lead to `session`.
pub open spec fn without_session(m: Map<(u8, u128), u64>, session: u64) -> Map<(u8, u128), u64> {
    m.restrict(Set::new(|k: (u8, u128)| m.dom().contains(k) && m[k] != session))
}

/// Whether an entry leads to another session than the one that leaves.
fn leads_elsewhere(owner: u64, session: u64) -> (v: bool)
    ensures
        v == (owner != session),
{
    owner != session
}

/// `DashMap::retain`: keeps the entries that [`leads_elsewhere`] keeps.
#[verifier::external_body]
fn addr_map_drop_session(m: &mut DashMap<(u8, u128), u64>, session: u64)
    ensures
        addr_map(*final(m)) == without_session(addr_map(*old(m)), session),
{
    m.retain(|_, owner| leads_elsewhere(*owner, session));
}

/// A prefix route toward a session.
#[derive(Debug, Clone, Copy, PartialEq, Eq, Structural)]
pub struct RouteEntry {
    pub prefix: IpNet,
    /// IP protocol scope; 0 = all protocols.
    pub ip_protocol: u8,
    pub session_id: SessionId,
}

/// Maps destination IPs to the session that should receive them.
///
/// Assigned client addresses sit in a hash map fast path; prefix routes
/// (site-to-site) use longest-prefix match.
#[derive(Debug)]
pub struct RouteTable {
    routes: Vec<RouteEntry>,
    client_addrs: DashMap<(u8, u128), u64>,
}

/// The key of an address.
pub open spec fn key_of(a: IpAddr) -> (u8, u128) {
    (a.spec_version(), a.spec_value() as u128)
}

/// Different addresses have different keys.
pub proof fn lemma_key_injective(a: IpAddr, b: IpAddr)
    requires
        key_of(a) == key_of(b),
    ensures
        a == b,
{
}

pub fn addr_key(a: &IpAddr) -> (k: (u8, u128))
    ensures
        k == key_of(*a),
{
    (a.version(), a.value())
}

/// A route applies to a packet: its prefix holds the destination and its
/// scope the protocol.
pub open spec fn route_applies(r: RouteEntry, dst: IpAddr, proto: u8) -> bool {
    r.prefix.spec_contains(dst) && (r.ip_protocol == 0 || r.ip_protocol == proto)
}

/// Where the most specific route that applies stands; among equally specific
/// ones, the one installed last.
pub open spec fn best_route(routes: Seq<RouteEntry>, dst: IpAddr, proto: u8) -> Option<RouteEntry>
    decreases routes.len(),
{
    if routes.len() == 0 {
        None
    } else {
        let r = routes.last();
        match best_route(routes.drop_last(), dst, proto) {
            None => if route_applies(r, dst, proto) {
                Some(r)
            } else {
                None
            },
            Some(b) => if route_applies(r, dst, proto) && r.prefix.spec_prefix_len()
                >= b.prefix.spec_prefix_len() {
                Some(r)
            } else {
                Some(b)
            },
        }
    }
}

/// The chosen route applies, no applying route is more specific, and there is
/// one whenever any route applies.
pub proof fn lemma_best_route(routes: Seq<RouteEntry>, dst: IpAddr, proto: u8)
    ensures
        match best_route(routes, dst, proto) {
            Some(b) => {
                &&& routes.contains(b)
                &&& route_applies(b, dst, proto)
                &&& forall|i: int|
                    0 <= i < routes.len() && route_applies(#[trigger] routes[i], dst, proto)
                        ==> routes[i].prefix.spec_prefix_len() <= b.prefix.spec_prefix_len()
            },
            None => forall|i: int|
                0 <= i < routes.len() ==> !route_applies(#[trigger] routes[i], dst, proto),
        },
    decreases routes.len(),
{
    if routes.len() > 0 {
        let t = routes.drop_last();
        lemma_best_route(t, dst, proto);
        assert forall|i: int| 0 <= i < t.len() implies t[i] == #[trigger] routes[i] by {}
        assert(routes[routes.len() - 1] == routes.last());
        if let Some(b) = best_route(t, dst, proto) {
            let k = choose|k: int| 0 <= k < t.len() && t[k] == b;
            assert(routes[k] == b);
        }
    }
}

/// The routes that do not lead to `session`.
pub open spec fn routes_elsewhere(routes: Seq<RouteEntry>, session: SessionId) -> Seq<RouteEntry> {
    routes.filter(|r: RouteEntry| r.session_id != session)
}

impl RouteTable {
    /// The assigned client addresses.
    pub closed spec fn clients(self) -> Map<(u8, u128), u64> {
        addr_map(self.client_addrs)
    }

    /// The prefix routes, in the order they were installed.
    pub closed spec fn prefix_routes(self) -> Seq<RouteEntry> {
        self.routes@
    }

    /// Where a packet goes: to the session its destination is assigned to, or
    /// else along the best prefix route.
    pub open spec fn spec_lookup(self, dst: IpAddr, proto: u8) -> Option<SessionId> {
        if self.clients().dom().contains(key_of(dst)) {
            Some(SessionId(self.clients()[key_of(dst)]))
        } else {
            match best_route(self.prefix_routes(), dst, proto) {
                Some(r) => Some(r.session_id),
                None => None,
            }
        }
    }

    pub fn new() -> (t: Self)
        ensures
            t.clients() == no_addrs(),
            t.prefix_routes() == Seq::<RouteEntry>::empty(),
    {
        RouteTable { routes: Vec::new(), client_addrs: addr_map_new() }
    }

    /// Register an assigned client address (fast path).
    pub fn insert_client_addr(&mut self, addr: IpAddr, session: SessionId)
        ensures
            final(self).clients() == old(self).clients().insert(key_of(addr), session.0),
            final(self).prefix_routes() == old(self).prefix_routes(),
    {
        addr_map_insert(&mut self.client_addrs, addr_key(&addr), session.0);
    }

    /// Install a prefix route toward a session.
    pub fn insert_route(&mut self, entry: RouteEntry)
        ensures
            final(self).clients() == old(self).clients(),
            final(self).prefix_routes() == old(self).prefix_routes().push(entry),
    {
        self.routes.push(entry);
    }

    /// Replace all prefix routes for a session (full-state semantics of
    /// ROUTE_ADVERTISEMENT, RFC 9484 §4.7.3). Assigned client addresses are
    /// untouched.
    pub fn replace_session_routes(&mut self, session: SessionId, entries: Vec<RouteEntry>)
        ensures
            final(self).clients() == old(self).clients(),
            final(self).prefix_routes() == routes_elsewhere(old(self).prefix_routes(), session)
                + entries@,
    {
        let mut kept = keep_elsewhere(&self.routes, session);
        let mut entries = entries;
        kept.append(&mut entries);
        self.routes = kept;
    }

    /// Remove all state for a session.
    pub fn remove_session(&mut self, session: SessionId)
        ensures
            final(self).clients() == without_session(old(self).clients(), session.0),
            final(self).prefix_routes() == routes_elsewhere(old(self).prefix_routes(), session),
    {
        addr_map_drop_session(&mut self.client_addrs, session.0);
        let kept = keep_elsewhere(&self.routes, session);
        self.routes = kept;
    }

    /// Find the session that should receive a packet for `dst` / `proto`.
    pub fn lookup(&self, dst: IpAddr, proto: u8) -> (r: Option<SessionId>)
        ensures
            r == self.spec_lookup(dst, proto),
    {
        match addr_map_get(&self.client_addrs, addr_key(&dst)) {
            Some(session) => {
                return Some(SessionId(session));
            },
            None => {},
        }
        let mut best: Option<RouteEntry> = None;
        let mut i: usize = 0;
        assert(self.routes@.take(0) =~= Seq::<RouteEntry>::empty());
        while i < self.routes.len()
            invariant
                i <= self.routes@.len(),
                best == best_route(self.routes@.take(i as int), dst, proto),
            decreases self.routes@.len() - i,
        {
            proof {
                assert(self.routes@.take(i + 1).drop_last() =~= self.routes@.take(i as int));
            }
            let r = self.routes[i];
            if r.prefix.contains(&dst) && (r.ip_protocol == 0 || r.ip_protocol == proto) {
                match best {
                    None => {
                        best = Some(r);
                    },
                    Some(b) => {
                        if r.prefix.prefix_len() >= b.prefix.prefix_len() {
                            best = Some(r);
                        }
                    },
                }
            }
            i = i + 1;
        }
        assert(self.routes@.take(i as int) =~= self.routes@);
        match best {
            Some(r) => Some(r.session_id),
            None => None,
        }
    }
}

impl Default for RouteTable {
    fn default() -> (t: Self)
        ensures
            t.clients() == no_addrs(),
            t.prefix_routes() == Seq::<RouteEntry>::empty(),
    {
        RouteTable::new()
    }
}

fn keep_elsewhere(routes: &Vec<RouteEntry>, session: SessionId) -> (kept: Vec<RouteEntry>)
    ensures
        kept@ == routes_elsewhere(routes@, session),
{
    let mut kept: Vec<RouteEntry> = Vec::new();
    let mut i: usize = 0;
    proof {
        reveal(Seq::filter);
    }
    assert(routes@.take(0) =~= Seq::<RouteEntry>::empty());
    while i < routes.len()
        invariant
            i <= routes@.len(),
            kept@ == routes_elsewhere(routes@.take(i as int), session),
        decreases routes@.len() - i,
    {
        proof {
            reveal(Seq::filter);
            assert(routes@.take(i + 1).drop_last() =~= routes@.take(i as int));
        }
        let r = routes[i];
        if r.session_id != session {
            kept.push(r);
        }
        i = i + 1;
    }
    assert(routes@.take(i as int) =~= routes@);
    kept
}

/// A filtered list holds only what passes, and everything that does.
proof fn lemma_elsewhere(routes: Seq<RouteEntry>, session: SessionId)
    ensures
        forall|r: RouteEntry|
            #[trigger] routes_elsewhere(routes, session).contains(r) <==> routes.contains(r)
                && r.session_id != session,
    decreases routes.len(),
{
    reveal(Seq::filter);
    let f = routes_elsewhere(routes, session);
    if routes.len() > 0 {
        let t = routes.drop_last();
        let last = routes.last();
        lemma_elsewhere(t, session);
        let g = routes_elsewhere(t, session);
        assert(routes =~= t.push(last));
        assert forall|r: RouteEntry| #[trigger] f.contains(r) <==> routes.contains(r)
            && r.session_id != session by {
            if routes.contains(r) && r.session_id != session {
                if r == last {
                    assert(f[f.len() - 1] == r);
                } else {
                    let k = choose|k: int| 0 <= k < routes.len() && routes[k] == r;
                    assert(t[k] == r);
                    assert(g.contains(r));
                    let m = choose|m: int| 0 <= m < g.len() && g[m] == r;
                    assert(f[m] == r);
                }
            }
            if f.contains(r) {
                let k = choose|k: int| 0 <= k < f.len() && f[k] == r;
                if k < g.len() {
                    assert(g[k] == r);
                    assert(g.contains(r));
                    let m = choose|m: int| 0 <= m < t.len() && t[m] == r;
                    assert(routes[m] == r);
                } else {
                    assert(routes[routes.len() - 1] == r);
                }
            }
        }
    }
}

/// Once a session is removed, no packet is routed to it.
pub proof fn lemma_removed_session_unreachable(
    before: RouteTable,
    after: RouteTable,
    session: SessionId,
    dst: IpAddr,
    proto: u8,
)
    requires
        after.clients() == without_session(before.clients(), session.0),
        after.prefix_routes() == routes_elsewhere(before.prefix_routes(), session),
    ensures
        after.spec_lookup(dst, proto) != Some(session),
{
    lemma_elsewhere(before.prefix_routes(), session);
    lemma_best_route(after.prefix_routes(), dst, proto);
}

/// After a replacement, a packet that reaches the session by prefix route
/// does so by one of the new entries: the old ones are gone.
pub proof fn lemma_replaced_routes_full_state(
    before: Seq<RouteEntry>,
    entries: Seq<RouteEntry>,
    session: SessionId,
    dst: IpAddr,
    proto: u8,
)
    ensures
        match best_route(routes_elsewhere(before, session) + entries, dst, proto) {
            Some(r) => r.session_id == session ==> entries.contains(r),
            None => true,
        },
{
    let all = routes_elsewhere(before, session) + entries;
    lemma_elsewhere(before, session);
    lemma_best_route(all, dst, proto);
    if let Some(r) = best_route(all, dst, proto) {
        let k = choose|k: int| 0 <= k < all.len() && all[k] == r;
        if k < routes_elsewhere(before, session).len() {
            assert(routes_elsewhere(before, session)[k] == r);
            assert(routes_elsewhere(before, session).contains(r));
        } else {
            assert(entries[k - routes_elsewhere(before, session).len()] == r);
        }
    }
}

/// Maximum prefixes installed from one client's ROUTE_ADVERTISEMENT.
pub const MAX_CLIENT_ROUTE_PREFIXES: usize = 128;

/// One of two prefixes holds the other's first address.
pub open spec fn nets_overlap(a: IpNet, b: IpNet) -> bool {
    &&& a is V4 <==> b is V4
    &&& a.spec_network() <= b.spec_network() <= a.spec_broadcast() || b.spec_network()
        <= a.spec_network() <= b.spec_broadcast()
}

/// Prefixes that do not overlap have no address in common.
pub proof fn lemma_no_overlap_disjoint(a: IpNet, b: IpNet, x: IpAddr)
    requires
        !nets_overlap(a, b),
    ensures
        !(a.spec_contains(x) && b.spec_contains(x)),
{
}

/// Some prefix overlaps some denied one.
pub open spec fn any_denied(prefixes: Seq<IpNet>, deny: Seq<IpNet>) -> bool {
    exists|i: int, j: int|
        0 <= i < prefixes.len() && 0 <= j < deny.len() && nets_overlap(
            #[trigger] deny[j],
            #[trigger] prefixes[i],
        )
}

/// The routes one advertised range asks for: its prefixes, unless the range
/// is malformed or any of them overlaps a denied prefix.
pub open spec fn range_entries(
    session: SessionId,
    range: IpAddressRange,
    deny: Seq<IpNet>,
) -> Seq<RouteEntry> {
    match range_prefixes(range.start_ip, range.end_ip) {
        None => Seq::empty(),
        Some(prefixes) => if any_denied(prefixes, deny) {
            Seq::empty()
        } else {
            Seq::new(
                prefixes.len(),
                |i: int|
                    RouteEntry {
                        prefix: prefixes[i],
                        ip_protocol: range.ip_protocol,
                        session_id: session,
                    },
            )
        },
    }
}

/// The routes all advertised ranges ask for, in order.
pub open spec fn ranges_entries(
    session: SessionId,
    ranges: Seq<IpAddressRange>,
    deny: Seq<IpNet>,
) -> Seq<RouteEntry>
    decreases ranges.len(),
{
    if ranges.len() == 0 {
        Seq::empty()
    } else {
        ranges_entries(session, ranges.drop_last(), deny) + range_entries(
            session,
            ranges.last(),
            deny,
        )
    }
}

/// The first [`MAX_CLIENT_ROUTE_PREFIXES`] of a list.
pub open spec fn capped(s: Seq<RouteEntry>) -> Seq<RouteEntry> {
    if s.len() <= MAX_CLIENT_ROUTE_PREFIXES {
        s
    } else {
        s.take(MAX_CLIENT_ROUTE_PREFIXES as int)
    }
}

/// Every installed route leads to the advertising session, and none shares an
/// address with a denied prefix: a client cannot draw other clients' traffic.
pub proof fn lemma_client_entries_safe(
    session: SessionId,
    ranges: Seq<IpAddressRange>,
    deny: Seq<IpNet>,
    i: int,
    j: int,
    x: IpAddr,
)
    requires
        0 <= i < capped(ranges_entries(session, ranges, deny)).len(),
        0 <= j < deny.len(),
    ensures
        capped(ranges_entries(session, ranges, deny))[i].session_id == session,
        !(capped(ranges_entries(session, ranges, deny))[i].prefix.spec_contains(x)
            && deny[j].spec_contains(x)),
{
    lemma_entries_safe(session, ranges, deny, i, j, x);
}

proof fn lemma_entries_safe(
    session: SessionId,
    ranges: Seq<IpAddressRange>,
    deny: Seq<IpNet>,
    i: int,
    j: int,
    x: IpAddr,
)
    requires
        0 <= i < ranges_entries(session, ranges, deny).len(),
        0 <= j < deny.len(),
    ensures
        ranges_entries(session, ranges, deny)[i].session_id == session,
        !(ranges_entries(session, ranges, deny)[i].prefix.spec_contains(x)
            && deny[j].spec_contains(x)),
    decreases ranges.len(),
{
    let before = ranges_entries(session, ranges.drop_last(), deny);
    if i < before.len() {
        lemma_entries_safe(session, ranges.drop_last(), deny, i, j, x);
    } else {
        let range = ranges.last();
        let mine = range_entries(session, range, deny);
        let k = i - before.len();
        assert(ranges_entries(session, ranges, deny)[i] == mine[k]);
        let prefixes = range_prefixes(range.start_ip, range.end_ip).unwrap();
        assert(mine[k].prefix == prefixes[k]);
        assert(!nets_overlap(deny[j], prefixes[k]));
        lemma_no_overlap_disjoint(deny[j], prefixes[k], x);
    }
}

fn overlaps(a: &IpNet, b: &IpNet) -> (v: bool)
    ensures
        v == nets_overlap(*a, *b),
{
    a.contains(&b.network()) || b.contains(&a.network())
}

fn denied(prefixes: &Vec<IpNet>, deny: &[IpNet]) -> (v: bool)
    ensures
        v == any_denied(prefixes@, deny@),
{
    let mut i: usize = 0;
    while i < prefixes.len()
        invariant
            i <= prefixes@.len(),
            forall|a: int, b: int|
                0 <= a < i && 0 <= b < deny@.len() ==> !nets_overlap(
                    #[trigger] deny@[b],
                    #[trigger] prefixes@[a],
                ),
        decreases prefixes@.len() - i,
    {
        let mut j: usize = 0;
        while j < deny.len()
            invariant
                i < prefixes@.len(),
                j <= deny@.len(),
                forall|b: int|
                    0 <= b < j ==> !nets_overlap(#[trigger] deny@[b], prefixes@[i as int]),
            decreases deny@.len() - j,
        {
            if overlaps(&deny[j], &prefixes[i]) {
                assert(nets_overlap(deny@[j as int], prefixes@[i as int]));
                return true;
            }
            j = j + 1;
        }
        i = i + 1;
    }
    false
}

/// The entries of a prefix of the ranges are a prefix of the entries.
proof fn lemma_entries_take(
    session: SessionId,
    ranges: Seq<IpAddressRange>,
    deny: Seq<IpNet>,
    i: int,
)
    requires
        0 <= i <= ranges.len(),
    ensures
        ranges_entries(session, ranges.take(i), deny).is_prefix_of(
            ranges_entries(session, ranges, deny),
        ),
    decreases ranges.len() - i,
{
    if i < ranges.len() {
        lemma_entries_take(session, ranges, deny, i + 1);
        assert(ranges.take(i + 1).drop_last() =~= ranges.take(i));
        let a = ranges_entries(session, ranges.take(i), deny);
        let b = ranges_entries(session, ranges.take(i + 1), deny);
        assert(a =~= b.take(a.len() as int));
        let c = ranges_entries(session, ranges, deny);
        assert(a =~= c.take(a.len() as int));
    } else {
        assert(ranges.take(i) =~= ranges);
    }
}

/// Convert client-advertised ranges into route entries toward `session`
/// (site-to-site, RFC 9484 §4.7.3).
///
/// Safety rules: ranges overlapping any `deny` prefix (the proxy's address
/// pools — accepting those would hijack other clients) are skipped, and the
/// total prefix count is capped.
pub fn entries_from_client_ranges(
    session: SessionId,
    ranges: &[IpAddressRange],
    deny: &[IpNet],
) -> (entries: Vec<RouteEntry>)
    ensures
        entries@ == capped(ranges_entries(session, ranges@, deny@)),
{
    let mut entries: Vec<RouteEntry> = Vec::new();
    let mut i: usize = 0;
    assert(ranges@.take(0) =~= Seq::<IpAddressRange>::empty());
    while i < ranges.len()
        invariant
            i <= ranges@.len(),
            entries@ == ranges_entries(session, ranges@.take(i as int), deny@),
            entries@.len() <= MAX_CLIENT_ROUTE_PREFIXES,
        decreases ranges@.len() - i,
    {
        let range = ranges[i];
        proof {
            assert(ranges@.take(i + 1).drop_last() =~= ranges@.take(i as int));
            assert(ranges@.take(i + 1).last() == range);
        }
        let ghost before = entries@;
        let ghost mine = range_entries(session, range, deny@);
        let ghost upto = ranges_entries(session, ranges@.take(i + 1), deny@);
        match split_range(&range.start_ip, &range.end_ip) {
            Some(prefixes) => {
                if !denied(&prefixes, deny) {
                    let mut k: usize = 0;
                    assert(before + mine.take(0) =~= entries@);
                    while k < prefixes.len()
                        invariant
                            k <= prefixes@.len(),
                            prefixes@.len() == mine.len(),
                            forall|m: int|
                                0 <= m < mine.len() ==> #[trigger] mine[m] == (RouteEntry {
                                    prefix: prefixes@[m],
                                    ip_protocol: range.ip_protocol,
                                    session_id: session,
                                }),
                            upto == before + mine,
                            i < ranges@.len(),
                            upto == ranges_entries(session, ranges@.take(i + 1), deny@),
                            entries@ == before + mine.take(k as int),
                            entries@.len() <= MAX_CLIENT_ROUTE_PREFIXES,
                        decreases prefixes@.len() - k,
                    {
                        if entries.len() >= MAX_CLIENT_ROUTE_PREFIXES {
                            proof {
                                lemma_entries_take(session, ranges@, deny@, i + 1);
                                let all = ranges_entries(session, ranges@, deny@);
                                assert(upto == all.take(upto.len() as int));
                                assert(entries@ =~= all.take(entries@.len() as int));
                            }
                            return entries;
                        }
                        entries.push(
                            RouteEntry {
                                prefix: prefixes[k],
                                ip_protocol: range.ip_protocol,
                                session_id: session,
                            },
                        );
                        proof {
                            assert(mine[k as int] == entries@.last());
                            assert(entries@ =~= before + mine.take(k + 1));
                        }
                        k = k + 1;
                    }
                    assert(mine.take(k as int) =~= mine);
                } else {
                    assert(before + mine =~= before);
                }
            },
            None => {
                assert(before + mine =~= before);
            },
        }
        i = i + 1;
    }
    assert(ranges@.take(i as int) =~= ranges@);
    entries
}

/// Where a packet goes, told from the table: to the session that its
/// destination is assigned to, whatever prefix routes say; else along a prefix
/// route that holds the destination under its protocol, of which none is more
/// specific and none that is as specific was installed later; nowhere exactly
/// if there is neither.
pub proof fn lemma_lookup(t: RouteTable, dst: IpAddr, proto: u8)
    ensures
        ({
            let key = (dst.spec_version(), dst.spec_value() as u128);
            let routes = t.prefix_routes();
            if t.clients().dom().contains(key) {
                t.spec_lookup(dst, proto) == Some(SessionId(t.clients()[key]))
            } else {
                match t.spec_lookup(dst, proto) {
                    Some(session) => exists|k: int|
                        {
                            let r = #[trigger] routes[k];
                            &&& 0 <= k < routes.len()
                            &&& r.session_id == session
                            &&& r.prefix.spec_contains(dst)
                            &&& r.ip_protocol == 0 || r.ip_protocol == proto
                            &&& forall|i: int|
                                0 <= i < routes.len() && (
                                #[trigger] routes[i]).prefix.spec_contains(dst) && (
                                routes[i].ip_protocol == 0 || routes[i].ip_protocol == proto)
                                    ==> routes[i].prefix.spec_prefix_len()
                                    <= r.prefix.spec_prefix_len() && (i > k
                                    ==> routes[i].prefix.spec_prefix_len()
                                    < r.prefix.spec_prefix_len())
                        },
                    None => forall|i: int|
                        0 <= i < routes.len() ==> !((#[trigger] routes[i]).prefix.spec_contains(
                            dst,
                        ) && (routes[i].ip_protocol == 0 || routes[i].ip_protocol == proto)),
                }
            }
        }),
{
    lemma_last_best(t.prefix_routes(), dst, proto);
}

proof fn lemma_last_best(routes: Seq<RouteEntry>, dst: IpAddr, proto: u8)
    ensures
        match best_route(routes, dst, proto) {
            Some(b) => exists|k: int|
                {
                    &&& 0 <= k < routes.len()
                    &&& #[trigger] routes[k] == b
                    &&& route_applies(b, dst, proto)
                    &&& forall|i: int|
                        0 <= i < routes.len() && route_applies(#[trigger] routes[i], dst, proto)
                            ==> routes[i].prefix.spec_prefix_len() <= b.prefix.spec_prefix_len()
                            && (i > k ==> routes[i].prefix.spec_prefix_len()
                            < b.prefix.spec_prefix_len())
                },
            None => forall|i: int|
                0 <= i < routes.len() ==> !route_applies(#[trigger] routes[i], dst, proto),
        },
    decreases routes.len(),
{
    if routes.len() > 0 {
        let t = routes.drop_last();
        let n = routes.len() - 1;
        lemma_last_best(t, dst, proto);
        assert forall|i: int| 0 <= i < t.len() implies t[i] == #[trigger] routes[i] by {}
        assert(routes[n] == routes.last());
        if let Some(b) = best_route(t, dst, proto) {
            let k = choose|k: int|
                {
                    &&& 0 <= k < t.len()
                    &&& #[trigger] t[k] == b
                    &&& route_applies(b, dst, proto)
                    &&& forall|i: int|
                        0 <= i < t.len() && route_applies(#[trigger] t[i], dst, proto)
                            ==> t[i].prefix.spec_prefix_len() <= b.prefix.spec_prefix_len() && (i
                            > k ==> t[i].prefix.spec_prefix_len() < b.prefix.spec_prefix_len())
                };
            assert(routes[k] == b);
            if best_route(routes, dst, proto) == Some(b) && !(route_applies(routes[n], dst, proto)
                && routes[n].prefix.spec_prefix_len() >= b.prefix.spec_prefix_len()) {
                assert forall|i: int|
                    0 <= i < routes.len() && route_applies(
                        #[trigger] routes[i],
                        dst,
                        proto,
                    ) implies routes[i].prefix.spec_prefix_len() <= b.prefix.spec_prefix_len() && (i
                    > k ==> routes[i].prefix.spec_prefix_len() < b.prefix.spec_prefix_len()) by {
                    if i < n {
                        assert(t[i] == routes[i]);
                    }
                }
            } else {
                assert forall|i: int|
                    0 <= i < routes.len() && route_applies(
                        #[trigger] routes[i],
                        dst,
                        proto,
                    ) implies routes[i].prefix.spec_prefix_len()
                    <= routes[n].prefix.spec_prefix_len() by {
                    if i < n {
                        assert(t[i] == routes[i]);
                    }
                }
            }
        }
    }
}

/// Replacing or removing the routes of one session leaves every route of the
/// others, and takes every one of its own.
pub proof fn lemma_other_routes_stay(routes: Seq<RouteEntry>, session: SessionId, r: RouteEntry)
    ensures
        routes_elsewhere(routes, session).contains(r) <==> routes.contains(r) && r.session_id
            != session,
{
    lemma_elsewhere(routes, session);
}

/// Removing a session takes its addresses out and leaves every other where it
/// leads.
pub proof fn lemma_other_addrs_stay(m: Map<(u8, u128), u64>, session: u64, k: (u8, u128))
    ensures
        without_session(m, session).dom().contains(k) <==> m.dom().contains(k) && m[k] != session,
        m.dom().contains(k) && m[k] != session ==> without_session(m, session)[k] == m[k],
{
}

/// Two prefixes overlap exactly if they have an address in common.
pub proof fn lemma_overlap_shared(a: IpNet, b: IpNet)
    ensures
        nets_overlap(a, b) <==> exists|x: IpAddr| #[trigger]
            a.spec_contains(x) && b.spec_contains(x),
{
    a.lemma_bounds();
    b.lemma_bounds();
    vstd::arithmetic::power2::lemma2_to64();
    vstd::arithmetic::power2::lemma_pow2_adds(64, 64);
    if nets_overlap(a, b) {
        let v = if a.spec_network() <= b.spec_network() {
            b.spec_network()
        } else {
            a.spec_network()
        };
        let x = if a is V4 {
            IpAddr::V4(crate::net::Ipv4Addr { bits: v as u32 })
        } else {
            IpAddr::V6(crate::net::Ipv6Addr { bits: v as u128 })
        };
        assert(a.spec_contains(x) && b.spec_contains(x));
    }
    if exists|x: IpAddr| #[trigger] a.spec_contains(x) && b.spec_contains(x) {
        let x = choose|x: IpAddr| #[trigger] a.spec_contains(x) && b.spec_contains(x);
        if !nets_overlap(a, b) {
            lemma_no_overlap_disjoint(a, b, x);
        }
    }
}

/// The range shares an address with a denied prefix.
pub open spec fn touches(range: IpAddressRange, deny: Seq<IpNet>) -> bool {
    exists|k: int, y: IpAddr|
        0 <= k < deny.len() && #[trigger] deny[k].spec_contains(y) && between(
            range.start_ip,
            range.end_ip,
            y,
        )
}

proof fn lemma_range_touches(range: IpAddressRange, deny: Seq<IpNet>)
    ensures
        range_prefixes(range.start_ip, range.end_ip) matches Some(nets) ==> (any_denied(nets, deny)
            <==> touches(range, deny)),
{
    if let Some(nets) = range_prefixes(range.start_ip, range.end_ip) {
        if any_denied(nets, deny) {
            let (i, j) = choose|i: int, j: int|
                0 <= i < nets.len() && 0 <= j < deny.len() && nets_overlap(
                    #[trigger] deny[j],
                    #[trigger] nets[i],
                );
            lemma_overlap_shared(deny[j], nets[i]);
            let x = choose|x: IpAddr| #[trigger]
                deny[j].spec_contains(x) && nets[i].spec_contains(x);
            lemma_range_split(range.start_ip, range.end_ip, x);
            assert(held(nets, x));
            assert(deny[j].spec_contains(x) && between(range.start_ip, range.end_ip, x));
        }
        if touches(range, deny) {
            let (k, y) = choose|k: int, y: IpAddr|
                0 <= k < deny.len() && #[trigger] deny[k].spec_contains(y) && between(
                    range.start_ip,
                    range.end_ip,
                    y,
                );
            lemma_range_split(range.start_ip, range.end_ip, y);
            let i = choose|i: int| 0 <= i < nets.len() && (#[trigger] nets[i]).spec_contains(y);
            lemma_overlap_shared(deny[k], nets[i]);
            assert(nets_overlap(deny[k], nets[i]));
        }
    }
}

/// Some entry leads the address to the session under the protocol scope.
pub open spec fn entry_for(
    entries: Seq<RouteEntry>,
    session: SessionId,
    ip_protocol: u8,
    x: IpAddr,
) -> bool {
    exists|i: int|
        0 <= i < entries.len() && (#[trigger] entries[i]).session_id == session
            && entries[i].ip_protocol == ip_protocol && entries[i].prefix.spec_contains(x)
}

/// Some advertised range that touches nothing denied holds the address under
/// the protocol scope.
pub open spec fn range_for(
    ranges: Seq<IpAddressRange>,
    deny: Seq<IpNet>,
    ip_protocol: u8,
    x: IpAddr,
) -> bool {
    exists|j: int|
        0 <= j < ranges.len() && (#[trigger] ranges[j]).ip_protocol == ip_protocol && between(
            ranges[j].start_ip,
            ranges[j].end_ip,
            x,
        ) && !touches(ranges[j], deny)
}

/// What a client advertises is installed: as long as the prefixes stay within
/// their number, an address leads to the client under a protocol scope exactly
/// if the client advertised it so, in a range that shares no address with a
/// denied prefix. Past that number the first ones are installed.
pub proof fn lemma_client_entries(
    session: SessionId,
    ranges: Seq<IpAddressRange>,
    deny: Seq<IpNet>,
    ip_protocol: u8,
    x: IpAddr,
)
    ensures
        ({
            let all = ranges_entries(session, ranges, deny);
            let entries = capped(all);
            &&& entry_for(all, session, ip_protocol, x) <==> range_for(ranges, deny, ip_protocol, x)
            &&& all.len() <= 128 ==> entries == all
            &&& all.len() > 128 ==> entries.len() == 128 && entries.is_prefix_of(all)
        }),
    decreases ranges.len(),
{
    let all = ranges_entries(session, ranges, deny);
    if ranges.len() > 0 {
        let d = ranges.drop_last();
        let range = ranges.last();
        let before = ranges_entries(session, d, deny);
        let mine = range_entries(session, range, deny);
        lemma_client_entries(session, d, deny, ip_protocol, x);
        lemma_range_touches(range, deny);
        lemma_range_split(range.start_ip, range.end_ip, x);
        lemma_range_split(range.start_ip, range.end_ip, range.start_ip);
        assert(forall|j: int| 0 <= j < d.len() ==> #[trigger] d[j] == ranges[j]);
        assert(ranges[ranges.len() - 1] == range);
        if entry_for(all, session, ip_protocol, x) {
            let i = choose|i: int|
                0 <= i < all.len() && (#[trigger] all[i]).session_id == session
                    && all[i].ip_protocol == ip_protocol && all[i].prefix.spec_contains(x);
            if i < before.len() {
                assert(before[i] == all[i]);
                let j = choose|j: int|
                    0 <= j < d.len() && (#[trigger] d[j]).ip_protocol == ip_protocol && between(
                        d[j].start_ip,
                        d[j].end_ip,
                        x,
                    ) && !touches(d[j], deny);
                assert(ranges[j].ip_protocol == ip_protocol);
            } else {
                let k = i - before.len();
                assert(mine[k] == all[i]);
                let nets = range_prefixes(range.start_ip, range.end_ip)->0;
                assert(nets[k].spec_contains(x));
                assert(held(nets, x));
            }
        }
        if range_for(ranges, deny, ip_protocol, x) {
            let j = choose|j: int|
                0 <= j < ranges.len() && (#[trigger] ranges[j]).ip_protocol == ip_protocol
                    && between(ranges[j].start_ip, ranges[j].end_ip, x) && !touches(
                    ranges[j],
                    deny,
                );
            if j < d.len() {
                assert(d[j].ip_protocol == ip_protocol);
                let i = choose|i: int|
                    0 <= i < before.len() && (#[trigger] before[i]).session_id == session
                        && before[i].ip_protocol == ip_protocol && before[i].prefix.spec_contains(
                        x,
                    );
                assert(all[i] == before[i]);
            } else {
                let nets = range_prefixes(range.start_ip, range.end_ip)->0;
                let i = choose|i: int|
                    0 <= i < nets.len() && (#[trigger] nets[i]).spec_contains(x);
                assert(mine[i].prefix == nets[i]);
                assert(all[before.len() + i] == mine[i]);
            }
        }
    }
}

/// Every entry for what a client advertises leads to that client.
pub proof fn lemma_entries_mine(session: SessionId, ranges: Seq<IpAddressRange>, deny: Seq<IpNet>)
    ensures
        forall|i: int|
            0 <= i < ranges_entries(session, ranges, deny).len() ==> (#[trigger] ranges_entries(
                session,
                ranges,
                deny,
            )[i]).session_id == session,
    decreases ranges.len(),
{
    if ranges.len() > 0 {
        let d = ranges.drop_last();
        lemma_entries_mine(session, d, deny);
        let before = ranges_entries(session, d, deny);
        let mine = range_entries(session, ranges.last(), deny);
        let all = ranges_entries(session, ranges, deny);
        assert forall|i: int| 0 <= i < all.len() implies (#[trigger] all[i]).session_id
            == session by {
            if i < before.len() {
                assert(all[i] == before[i]);
            } else {
                assert(all[i] == mine[i - before.len()]);
            }
        }
    }
}

/// The routes of the others stay in the order they had, none twice that was
/// there once.
pub proof fn lemma_elsewhere_order(routes: Seq<RouteEntry>, session: SessionId, r: RouteEntry)
    ensures
        routes_elsewhere(Seq::empty(), session) == Seq::<RouteEntry>::empty(),
        r.session_id != session ==> routes_elsewhere(routes.push(r), session) == routes_elsewhere(
            routes,
            session,
        ).push(r),
        r.session_id == session ==> routes_elsewhere(routes.push(r), session) == routes_elsewhere(
            routes,
            session,
        ),
{
    reveal(Seq::filter);
    assert(routes.push(r).drop_last() =~= routes);
}

} // verus!
