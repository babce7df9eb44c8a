//! CONNECT-IP request handling: request validation, tunnel establishment,
//! capsule processing and teardown.

use http::{HeaderMap, HeaderValue};
use vstd::prelude::*;

use crate::address_pool::{lemma_request_served, AddressPool};
use crate::capsule::route_advertisement::{ranges_ordered, sorted_ranges};
use crate::capsule::{
    all_wf, coalesced, covered, covers, lemma_merge_covers, lemma_merge_valid, lemma_of_net, merge_ranges,
    AddressAssign, AssignedAddress, Capsule, CapsuleView, IpAddressRange, RequestedAddress,
};
use crate::config::ProxyConfig;
use crate::error::{ForwardingError, ProxyError};
use crate::forwarding::router::{
    capped, entries_from_client_ranges, entry_for, key_of, lemma_client_entries,
    lemma_entries_mine, lemma_other_routes_stay, lemma_removed_session_unreachable, range_for,
    ranges_entries, routes_elsewhere, without_session, RouteEntry,
};
use crate::forwarding::packet::{packet_info, PacketInfo};
use crate::forwarding::{ranges_allow, starts_full, EgressPolicy, VerdictView};
use crate::net::{IpAddr, IpNet, Ipv4Addr, Ipv6Addr};
use crate::server::{is_fresh, ProxyContext};
use crate::text::{chars_of, is_text, same_chars, trim, trimmed};

use super::auth::{get_header_text, header_text};
use super::{copy_addrs, with_session, RequestScope, SessionId, TunnelSession};

verus! {

/// The connect-ip Extended CONNECT protocol token (RFC 9484 §4.2).
pub const CONNECT_IP_PROTOCOL: &'static str = "connect-ip";

/// What is wrong with a request.
pub open spec fn request_fault(
    method: Seq<char>,
    protocol: Option<Seq<char>>,
    capsule_protocol: Option<Seq<char>>,
) -> Option<Seq<char>> {
    if method != "CONNECT"@ {
        Some("expected CONNECT, got "@ + method)
    } else {
        match protocol {
            None => Some(":protocol pseudo-header missing"@),
            Some(p) => if p != "connect-ip"@ {
                Some("unsupported :protocol "@ + p)
            } else if capsule_protocol is Some && trimmed(capsule_protocol->0) == "?1"@ {
                None
            } else {
                Some("capsule-protocol: ?1 header required"@)
            },
        }
    }
}

/// The request path of a tunnel to any target and protocol (RFC 9484 §4.6).
pub const UNSCOPED_PATH: &'static str = "/.well-known/masque/ip/*/*/";

/// What the path of a request asks to reach. Only the path of a tunnel to
/// everything is served.
pub fn request_scope(path: &str) -> (r: Result<RequestScope, ProxyError>)
    ensures
        if path@ == UNSCOPED_PATH@ {
            r == Ok::<RequestScope, ProxyError>(RequestScope { target: None, ip_proto: None })
        } else {
            r matches Err(ProxyError::InvalidRequest(t)) && t@ == "unsupported path "@ + path@
        },
{
    if is_text(path, UNSCOPED_PATH) {
        Ok(RequestScope { target: None, ip_proto: None })
    } else {
        Err(ProxyError::InvalidRequest(String::from_str("unsupported path ").concat(path)))
    }
}

/// The view of an optional string slice.
pub open spec fn str_view(s: Option<&str>) -> Option<Seq<char>> {
    match s {
        Some(s) => Some(s@),
        None => None,
    }
}

fn invalid(text: String) -> (r: Result<(), ProxyError>)
    ensures
        r matches Err(ProxyError::InvalidRequest(t)) && t == text,
{
    Err(ProxyError::InvalidRequest(text))
}

/// Validate an Extended CONNECT request (RFC 9484 §4.2-4.4): its method, its
/// `:protocol`, and its declared capsule protocol support.
pub fn validate_request(
    method: &str,
    protocol: Option<&str>,
    headers: &HeaderMap<HeaderValue>,
) -> (r: Result<(), ProxyError>)
    ensures
        match request_fault(
            method@,
            str_view(protocol),
            header_text(*headers, "capsule-protocol"@),
        ) {
            None => r is Ok,
            Some(text) => r matches Err(ProxyError::InvalidRequest(t)) && t@ == text,
        },
{
    if !is_text(method, "CONNECT") {
        return invalid(String::from_str("expected CONNECT, got ").concat(method));
    }
    let protocol = match protocol {
        Some(p) => p,
        None => {
            return invalid(String::from_str(":protocol pseudo-header missing"));
        },
    };
    if !is_text(protocol, "connect-ip") {
        return invalid(String::from_str("unsupported :protocol ").concat(protocol));
    }
    // RFC 9484 §4.4: the request MUST declare capsule protocol support.
    let capsule_ok = match get_header_text(headers, "capsule-protocol") {
        Some(v) => {
            let t = trim(v.as_slice());
            let want = chars_of("?1");
            same_chars(t.as_slice(), want.as_slice())
        },
        None => false,
    };
    if !capsule_ok {
        return invalid(String::from_str("capsule-protocol: ?1 header required"));
    }
    Ok(())
}

/// The HTTP status that a request refused with an error gets.
pub fn rejection_status(e: &ProxyError) -> (status: u16)
    ensures
        status == if *e is InvalidRequest {
            400u16
        } else {
            500u16
        },
{
    match e {
        ProxyError::InvalidRequest(_) => 400,
        _ => 500,
    }
}

/// The whole address space of one or both versions, all protocols.
pub open spec fn everything(include_v6: bool) -> Seq<IpAddressRange> {
    let v4 = IpAddressRange {
        ip_version: 4,
        start_ip: IpAddr::V4(Ipv4Addr { bits: 0 }),
        end_ip: IpAddr::V4(Ipv4Addr { bits: u32::MAX }),
        ip_protocol: 0,
    };
    let v6 = IpAddressRange {
        ip_version: 6,
        start_ip: IpAddr::V6(Ipv6Addr { bits: 0 }),
        end_ip: IpAddr::V6(Ipv6Addr { bits: u128::MAX }),
        ip_protocol: 0,
    };
    if include_v6 {
        seq![v4, v6]
    } else {
        seq![v4]
    }
}

/// Full-tunnel route advertisement: everything, all protocols.
pub fn full_tunnel_routes(include_v6: bool) -> (routes: Vec<IpAddressRange>)
    ensures
        routes@ == everything(include_v6),
{
    let mut routes: Vec<IpAddressRange> = Vec::new();
    routes.push(
        IpAddressRange {
            ip_version: 4,
            start_ip: IpAddr::V4(Ipv4Addr { bits: 0 }),
            end_ip: IpAddr::V4(Ipv4Addr { bits: u32::MAX }),
            ip_protocol: 0,
        },
    );
    if include_v6 {
        routes.push(
            IpAddressRange {
                ip_version: 6,
                start_ip: IpAddr::V6(Ipv6Addr { bits: 0 }),
                end_ip: IpAddr::V6(Ipv6Addr { bits: u128::MAX }),
                ip_protocol: 0,
            },
        );
    }
    routes
}

/// The ranges of some prefixes, all protocols.
pub open spec fn net_ranges(nets: Seq<IpNet>) -> Seq<IpAddressRange> {
    nets.map_values(|n: IpNet| IpAddressRange::of_net(n, 0))
}

fn push_net_ranges(ranges: &mut Vec<IpAddressRange>, nets: &Vec<IpNet>)
    ensures
        final(ranges)@ == old(ranges)@ + net_ranges(nets@),
{
    let mut i: usize = 0;
    proof {
        assert(ranges@ =~= old(ranges)@ + net_ranges(nets@.take(0)));
    }
    while i < nets.len()
        invariant
            i <= nets@.len(),
            ranges@ == old(ranges)@ + net_ranges(nets@.take(i as int)),
        decreases nets@.len() - i,
    {
        ranges.push(IpAddressRange::from_net(nets[i], 0));
        i = i + 1;
        proof {
            assert(ranges@ =~= old(ranges)@ + net_ranges(nets@.take(i as int)));
        }
    }
    proof {
        assert(nets@.take(nets@.len() as int) =~= nets@);
    }
}

/// The prefixes of the pools.
pub open spec fn pool_prefixes(pool: AddressPool) -> Seq<IpNet> {
    match pool.net6() {
        Some(net) => seq![IpNet::V4(pool.net4()), IpNet::V6(net)],
        None => seq![IpNet::V4(pool.net4())],
    }
}

/// The routes a proxy advertises (and enforces) for a session.
pub open spec fn routes_for(ctx: ProxyContext) -> Seq<IpAddressRange> {
    coalesced(
        sorted_ranges(
            net_ranges(pool_prefixes(ctx.pool)) + if ctx.config.split_routes@.len() == 0 {
                everything(ctx.config.ipv6_pool is Some)
            } else {
                net_ranges(ctx.config.split_routes@)
            },
        ),
    )
}

/// The routes this proxy advertises (and enforces) for a session:
/// full-tunnel by default, the configured prefixes in split-tunnel mode.
/// The client address pool is always included so tunnel clients can reach
/// each other and the gateway; overlaps are merged into a valid capsule.
pub fn advertised_routes(ctx: &ProxyContext) -> (routes: Vec<IpAddressRange>)
    ensures
        routes@ == routes_for(*ctx),
{
    let nets = ctx.pool.pool_nets();
    let mut ranges: Vec<IpAddressRange> = Vec::new();
    push_net_ranges(&mut ranges, &nets);
    if ctx.config.split_routes.len() == 0 {
        let mut all = full_tunnel_routes(ctx.config.ipv6_pool.is_some());
        ranges.append(&mut all);
    } else {
        push_net_ranges(&mut ranges, &ctx.config.split_routes);
    }
    proof {
        assert(ranges@ =~= net_ranges(pool_prefixes(ctx.pool)) + if ctx.config.split_routes@.len()
            == 0 {
            everything(ctx.config.ipv6_pool is Some)
        } else {
            net_ranges(ctx.config.split_routes@)
        });
    }
    merge_ranges(ranges)
}

/// The addresses among some results.
pub open spec fn somes(rs: Seq<Option<AssignedAddress>>) -> Seq<AssignedAddress>
    decreases rs.len(),
{
    if rs.len() == 0 {
        Seq::empty()
    } else {
        match rs.last() {
            Some(a) => somes(rs.drop_last()).push(a),
            None => somes(rs.drop_last()),
        }
    }
}

/// The addresses lead to a session.
pub open spec fn routed(
    clients: Map<(u8, u128), u64>,
    addrs: Seq<AssignedAddress>,
    session: SessionId,
) -> Map<(u8, u128), u64>
    decreases addrs.len(),
{
    if addrs.len() == 0 {
        clients
    } else {
        routed(clients, addrs.drop_last(), session).insert(
            key_of(addrs.last().ip_address),
            session.0,
        )
    }
}

/// Every routed address leads to the session; the others lead where they did.
pub proof fn lemma_routed(
    clients: Map<(u8, u128), u64>,
    addrs: Seq<AssignedAddress>,
    session: SessionId,
    k: (u8, u128),
)
    ensures
        ({
            let m = routed(clients, addrs, session);
            if exists|i: int| 0 <= i < addrs.len() && key_of((#[trigger] addrs[i]).ip_address) == k {
                m.dom().contains(k) && m[k] == session.0
            } else {
                m.dom().contains(k) == clients.dom().contains(k) && m[k] == clients[k]
            }
        }),
    decreases addrs.len(),
{
    if addrs.len() > 0 {
        lemma_routed(clients, addrs.drop_last(), session, k);
        if exists|i: int| 0 <= i < addrs.len() && key_of((#[trigger] addrs[i]).ip_address) == k {
            let i = choose|i: int|
                0 <= i < addrs.len() && key_of((#[trigger] addrs[i]).ip_address) == k;
            if i < addrs.len() - 1 {
                assert(addrs.drop_last()[i] == addrs[i]);
            }
        } else {
            assert(forall|i: int|
                0 <= i < addrs.len() - 1 ==> (#[trigger] addrs.drop_last()[i]) == addrs[i]);
        }
    }
}

/// The first addresses of a session: one of each pool that has any left.
pub open spec fn first_addresses(
    before: AddressPool,
    after: AddressPool,
    id: SessionId,
    assigned: Seq<AssignedAddress>,
) -> bool {
    exists|mid: AddressPool, r4: Option<AssignedAddress>, r6: Option<AssignedAddress>|
        #![trigger mid.after_v4(before, id, 0, r4), after.after_v6(mid, id, 0, r6)]
        mid.after_v4(before, id, 0, r4) && mid.same_nets(before) && mid.wf() && after.after_v6(
            mid,
            id,
            0,
            r6,
        ) && after.same_nets(mid) && assigned == somes(seq![r4, r6])
}

/// Allocate the addresses of a new tunnel (unprompted assignment).
pub fn allocate_addresses(ctx: &mut ProxyContext, id: SessionId) -> (r: Result<
    Vec<AssignedAddress>,
    ProxyError,
>)
    requires
        old(ctx).pool.wf(),
    ensures
        final(ctx).pool.wf(),
        final(ctx).config == old(ctx).config,
        final(ctx).sessions == old(ctx).sessions,
        final(ctx).engine == old(ctx).engine,
        final(ctx).auth == old(ctx).auth,
        match r {
            Ok(assigned) => assigned@.len() > 0 && first_addresses(
                old(ctx).pool,
                final(ctx).pool,
                id,
                assigned@,
            ),
            Err(e) => e is PoolExhausted && first_addresses(
                old(ctx).pool,
                final(ctx).pool,
                id,
                Seq::empty(),
            ),
        },
{
    let ghost before = ctx.pool;
    let mut assigned: Vec<AssignedAddress> = Vec::new();
    let r4 = ctx.pool.allocate_v4(id);
    let ghost mid = ctx.pool;
    match r4 {
        Some(a) => {
            assigned.push(a);
        },
        None => {},
    }
    let r6 = ctx.pool.allocate_v6(id);
    match r6 {
        Some(a) => {
            assigned.push(a);
        },
        None => {},
    }
    proof {
        let rs = seq![r4, r6];
        assert(rs.drop_last() =~= seq![r4]);
        assert(seq![r4].drop_last() =~= Seq::<Option<AssignedAddress>>::empty());
        reveal_with_fuel(somes, 3);
        assert(assigned@ =~= somes(rs));
        assert(mid.after_v4(before, id, 0, r4));
        assert(ctx.pool.after_v6(mid, id, 0, r6));
        assert(first_addresses(before, ctx.pool, id, assigned@));
    }
    if assigned.len() == 0 {
        proof {
            assert(assigned@ =~= Seq::<AssignedAddress>::empty());
        }
        return Err(ProxyError::PoolExhausted);
    }
    Ok(assigned)
}

/// Lead addresses to a session.
fn route_addresses(ctx: &mut ProxyContext, id: SessionId, assigned: &Vec<AssignedAddress>)
    ensures
        final(ctx).same_but_engine(*old(ctx)),
        final(ctx).engine.states() == old(ctx).engine.states(),
        final(ctx).engine.same_settings(old(ctx).engine),
        final(ctx).engine.table().prefix_routes() == old(ctx).engine.table().prefix_routes(),
        final(ctx).engine.table().clients() == routed(
            old(ctx).engine.table().clients(),
            assigned@,
            id,
        ),
{
    let mut i: usize = 0;
    proof {
        assert(assigned@.take(0) =~= Seq::<AssignedAddress>::empty());
    }
    while i < assigned.len()
        invariant
            i <= assigned@.len(),
            ctx.same_but_engine(*old(ctx)),
            ctx.engine.states() == old(ctx).engine.states(),
            ctx.engine.same_settings(old(ctx).engine),
            ctx.engine.table().prefix_routes() == old(ctx).engine.table().prefix_routes(),
            ctx.engine.table().clients() == routed(
                old(ctx).engine.table().clients(),
                assigned@.take(i as int),
                id,
            ),
        decreases assigned@.len() - i,
    {
        ctx.engine.insert_client_addr(assigned[i].ip_address, id);
        i = i + 1;
        proof {
            assert(assigned@.take(i as int).drop_last() =~= assigned@.take(i - 1));
        }
    }
    proof {
        assert(assigned@.take(assigned@.len() as int) =~= assigned@);
    }
}

/// A tunnel was installed: its addresses lead to its session, which may reach
/// what was advertised and is limited from now on.
pub open spec fn tunnel_installed(
    before: ProxyContext,
    after: ProxyContext,
    id: SessionId,
    assigned: Seq<AssignedAddress>,
    routes: Seq<IpAddressRange>,
    mtu: usize,
) -> bool {
    &&& after.config == before.config
    &&& after.pool == before.pool
    &&& after.auth == before.auth
    &&& after.engine.same_settings(before.engine)
    &&& after.engine.table().clients() == routed(before.engine.table().clients(), assigned, id)
    &&& after.engine.table().prefix_routes() == before.engine.table().prefix_routes()
    &&& after.engine.states().dom() == before.engine.states().dom().insert(id.0)
    &&& after.engine.states().remove(id.0) == before.engine.states().remove(id.0)
    &&& after.engine.states()[id.0].policy@ == routes
    &&& after.engine.states()[id.0].mtu == mtu
    &&& starts_full(after.engine.states()[id.0].limiter, before.engine.spec_limits())
    &&& after.sessions.limit() == before.sessions.limit()
    &&& after.sessions.snapshots() == before.sessions.snapshots().insert(id.0, assigned)
    &&& assigned_in(before.sessions.sessions(), after.sessions.sessions(), id, assigned)
}

/// Install the forwarding state of a new tunnel. The egress policy is exactly
/// what was advertised (RFC 9484 §4.7.3: clients MUST NOT send outside it).
pub fn install_tunnel(
    ctx: &mut ProxyContext,
    id: SessionId,
    assigned: &Vec<AssignedAddress>,
    routes: Vec<IpAddressRange>,
    mtu: usize,
)
    ensures
        tunnel_installed(*old(ctx), *final(ctx), id, assigned@, routes@, mtu),
{
    route_addresses(ctx, id, assigned);
    ctx.engine.register_session(id, EgressPolicy::new(routes), mtu);
    let copy = copy_addrs(assigned);
    ctx.sessions.set_assigned(id, copy);
    proof {
        let m = old(ctx).sessions.sessions();
        let change = |s: TunnelSession| TunnelSession { assigned_addresses: copy, ..s };
        assert(ctx.sessions.sessions() == with_session(m, id, change));
        assert(ctx.sessions.sessions().remove(id.0) =~= m.remove(id.0));
        assert(ctx.sessions.sessions().dom() =~= m.dom());
        assert(assigned_in(m, ctx.sessions.sessions(), id, assigned@));
    }
}

/// Only the assigned addresses of one session differ, if it is there.
pub open spec fn assigned_in(
    before: Map<u64, TunnelSession>,
    after: Map<u64, TunnelSession>,
    id: SessionId,
    assigned: Seq<AssignedAddress>,
) -> bool {
    &&& after.dom() == before.dom()
    &&& after.remove(id.0) == before.remove(id.0)
    &&& before.dom().contains(id.0) ==> after[id.0].assigned_addresses@ == assigned && after[id.0]
        == (TunnelSession {
        assigned_addresses: after[id.0].assigned_addresses,
        ..before[id.0]
    })
}

/// Only the client's routes of one session differ, if it is there.
pub open spec fn routes_in(
    before: Map<u64, TunnelSession>,
    after: Map<u64, TunnelSession>,
    id: SessionId,
    ranges: Seq<IpAddressRange>,
) -> bool {
    &&& after.dom() == before.dom()
    &&& after.remove(id.0) == before.remove(id.0)
    &&& before.dom().contains(id.0) ==> after[id.0].client_routes@ == ranges && after[id.0]
        == (TunnelSession { client_routes: after[id.0].client_routes, ..before[id.0] })
}

/// Only the proxy's addresses of one session differ, if it is there.
pub open spec fn proxy_in(
    before: Map<u64, TunnelSession>,
    after: Map<u64, TunnelSession>,
    id: SessionId,
    addrs: Seq<AssignedAddress>,
) -> bool {
    &&& after.dom() == before.dom()
    &&& after.remove(id.0) == before.remove(id.0)
    &&& before.dom().contains(id.0) ==> after[id.0].proxy_addresses@ == addrs && after[id.0]
        == (TunnelSession { proxy_addresses: after[id.0].proxy_addresses, ..before[id.0] })
}

/// Requests were served one after another; `trace` is the pool before, between
/// and after them.
pub open spec fn served_all(
    trace: Seq<AddressPool>,
    id: SessionId,
    requests: Seq<RequestedAddress>,
    results: Seq<Option<AssignedAddress>>,
) -> bool {
    &&& trace.len() == requests.len() + 1
    &&& results.len() == requests.len()
    &&& forall|i: int|
        0 <= i < requests.len() ==> request_served(
            trace[i],
            trace[i + 1],
            id,
            #[trigger] requests[i],
            results[i],
        )
}

/// One request was served.
pub open spec fn request_served(
    before: AddressPool,
    after: AddressPool,
    id: SessionId,
    request: RequestedAddress,
    r: Option<AssignedAddress>,
) -> bool {
    after.same_nets(before) && after.wf() && after.served(before, id, request, r)
}

proof fn lemma_served_push(
    trace: Seq<AddressPool>,
    id: SessionId,
    requests: Seq<RequestedAddress>,
    results: Seq<Option<AssignedAddress>>,
    next: AddressPool,
    request: RequestedAddress,
    r: Option<AssignedAddress>,
)
    requires
        served_all(trace, id, requests, results),
        request_served(trace.last(), next, id, request, r),
    ensures
        served_all(trace.push(next), id, requests.push(request), results.push(r)),
{
    let t = trace.push(next);
    let q = requests.push(request);
    let p = results.push(r);
    assert forall|i: int| 0 <= i < q.len() implies request_served(
        t[i],
        t[i + 1],
        id,
        #[trigger] q[i],
        p[i],
    ) by {
        if i < requests.len() {
            assert(requests[i] == q[i]);
            assert(t[i + 1] == trace[i + 1]);
        }
    }
}

/// What an ADDRESS_REQUEST makes of the pool, the route table and the
/// session's addresses.
pub open spec fn requests_served(
    before: ProxyContext,
    after: ProxyContext,
    id: SessionId,
    requests: Seq<RequestedAddress>,
    assigned_before: Seq<AssignedAddress>,
    assigned_after: Seq<AssignedAddress>,
) -> bool {
    exists|trace: Seq<AddressPool>, results: Seq<Option<AssignedAddress>>| #[trigger]
        served_all(trace, id, requests, results) && trace[0] == before.pool
            && trace[requests.len() as int] == after.pool && assigned_after == assigned_before
            + somes(results) && after.engine.table().clients() == routed(
            before.engine.table().clients(),
            somes(results),
            id,
        )
}

/// Serve the entries of an ADDRESS_REQUEST. Unassignable requests are simply
/// absent from the reply.
fn serve_requests(
    ctx: &mut ProxyContext,
    id: SessionId,
    requests: &Vec<RequestedAddress>,
    assigned: &mut Vec<AssignedAddress>,
)
    requires
        old(ctx).pool.wf(),
    ensures
        final(ctx).pool.wf(),
        final(ctx).config == old(ctx).config,
        final(ctx).sessions == old(ctx).sessions,
        final(ctx).auth == old(ctx).auth,
        final(ctx).engine.states() == old(ctx).engine.states(),
        final(ctx).engine.same_settings(old(ctx).engine),
        final(ctx).engine.table().prefix_routes() == old(ctx).engine.table().prefix_routes(),
        requests_served(
            *old(ctx),
            *final(ctx),
            id,
            requests@,
            old(assigned)@,
            final(assigned)@,
        ),
{
    let ghost mut trace: Seq<AddressPool> = seq![ctx.pool];
    let ghost mut results: Seq<Option<AssignedAddress>> = Seq::empty();
    let mut i: usize = 0;
    proof {
        assert(requests@.take(0) =~= Seq::<RequestedAddress>::empty());
        assert(assigned@ =~= old(assigned)@ + somes(results));
    }
    while i < requests.len()
        invariant
            i <= requests@.len(),
            ctx.pool.wf(),
            ctx.config == old(ctx).config,
            ctx.sessions == old(ctx).sessions,
            ctx.auth == old(ctx).auth,
            ctx.engine.states() == old(ctx).engine.states(),
            ctx.engine.same_settings(old(ctx).engine),
            ctx.engine.table().prefix_routes() == old(ctx).engine.table().prefix_routes(),
            served_all(trace, id, requests@.take(i as int), results),
            trace[0] == old(ctx).pool,
            trace[i as int] == ctx.pool,
            assigned@ == old(assigned)@ + somes(results),
            ctx.engine.table().clients() == routed(
                old(ctx).engine.table().clients(),
                somes(results),
                id,
            ),
        decreases requests@.len() - i,
    {
        let ghost before_trace = trace;
        let ghost before_results = results;
        let r = ctx.pool.allocate_for_request(id, &requests[i]);
        proof {
            trace = trace.push(ctx.pool);
            results = results.push(r);
            assert(results.drop_last() =~= before_results);
            lemma_served_push(
                before_trace,
                id,
                requests@.take(i as int),
                before_results,
                ctx.pool,
                requests@[i as int],
                r,
            );
            assert(requests@.take(i as int).push(requests@[i as int]) =~= requests@.take(i + 1));
        }
        match r {
            Some(a) => {
                ctx.engine.insert_client_addr(a.ip_address, id);
                assigned.push(a);
                proof {
                    assert(somes(results).drop_last() =~= somes(before_results));
                    assert(assigned@ =~= old(assigned)@ + somes(results));
                }
            },
            None => {},
        }
        i = i + 1;
    }
    proof {
        assert(requests@.take(requests@.len() as int) =~= requests@);
    }
}

/// What a capsule of a client makes of the proxy's state, and what is sent
/// back.
pub open spec fn capsule_handled(
    before: ProxyContext,
    after: ProxyContext,
    capsule: CapsuleView,
    id: SessionId,
    assigned_before: Seq<AssignedAddress>,
    assigned_after: Seq<AssignedAddress>,
    reply: Option<CapsuleView>,
) -> bool {
    match capsule {
        CapsuleView::AddressRequest(requests) => {
            &&& requests_served(before, after, id, requests, assigned_before, assigned_after)
            &&& after.engine.table().prefix_routes() == before.engine.table().prefix_routes()
            &&& after.sessions.snapshots() == before.sessions.snapshots().insert(
                id.0,
                assigned_after,
            )
            &&& assigned_in(
                before.sessions.sessions(),
                after.sessions.sessions(),
                id,
                assigned_after,
            )
            &&& reply == Some(CapsuleView::AddressAssign(assigned_after))
        },
        CapsuleView::RouteAdvertisement(ranges) => {
            &&& after.pool == before.pool
            &&& after.engine.table().clients() == before.engine.table().clients()
            &&& after.engine.table().prefix_routes() == (if before.config.accept_client_routes {
                routes_elsewhere(before.engine.table().prefix_routes(), id) + capped(
                    ranges_entries(id, ranges, pool_prefixes(before.pool)),
                )
            } else {
                before.engine.table().prefix_routes()
            })
            &&& after.sessions.snapshots() == before.sessions.snapshots()
            &&& routes_in(before.sessions.sessions(), after.sessions.sessions(), id, ranges)
            &&& assigned_after == assigned_before
            &&& reply is None
        },
        CapsuleView::AddressAssign(addrs) => {
            &&& after.pool == before.pool
            &&& after.engine == before.engine
            &&& after.sessions.snapshots() == before.sessions.snapshots()
            &&& proxy_in(before.sessions.sessions(), after.sessions.sessions(), id, addrs)
            &&& assigned_after == assigned_before
            &&& reply is None
        },
        CapsuleView::Unknown { .. } => {
            &&& after == before
            &&& assigned_after == assigned_before
            &&& reply is None
        },
    }
}

/// The view of an optional capsule.
pub open spec fn capsule_view(c: Option<Capsule>) -> Option<CapsuleView> {
    match c {
        Some(c) => Some(c@),
        None => None,
    }
}

/// Process one capsule of a client; the result is the capsule to send back.
///
/// - ADDRESS_REQUEST: ADDRESS_ASSIGN is full-state, so the reply is the
///   complete current assignment set (RFC 9484 §4.7.1).
/// - ROUTE_ADVERTISEMENT: routes toward the client's side (site-to-site) are
///   installed when the operator opted in, full-state semantics.
/// - ADDRESS_ASSIGN: addresses for the proxy end of the tunnel are recorded;
///   the proxy does not originate traffic.
/// - Unknown capsule types MUST be ignored (RFC 9297 §3.2).
pub fn handle_capsule(
    ctx: &mut ProxyContext,
    capsule: Capsule,
    id: SessionId,
    assigned: &mut Vec<AssignedAddress>,
) -> (reply: Option<Capsule>)
    requires
        old(ctx).pool.wf(),
    ensures
        final(ctx).pool.wf(),
        final(ctx).config == old(ctx).config,
        final(ctx).auth == old(ctx).auth,
        final(ctx).engine.states() == old(ctx).engine.states(),
        final(ctx).engine.same_settings(old(ctx).engine),
        final(ctx).sessions.limit() == old(ctx).sessions.limit(),
        capsule_handled(
            *old(ctx),
            *final(ctx),
            capsule@,
            id,
            old(assigned)@,
            final(assigned)@,
            capsule_view(reply),
        ),
{
    let ghost before = *ctx;
    match capsule {
        Capsule::AddressRequest(req) => {
            serve_requests(ctx, id, &req.requested_addresses, assigned);
            let copy = copy_addrs(assigned);
            let ghost mid = *ctx;
            ctx.sessions.set_assigned(id, copy);
            proof {
                let m = mid.sessions.sessions();
                let change = |s: TunnelSession| TunnelSession { assigned_addresses: copy, ..s };
                assert(ctx.sessions.sessions() == with_session(m, id, change));
                assert(ctx.sessions.sessions().remove(id.0) =~= m.remove(id.0));
                assert(ctx.sessions.sessions().dom() =~= m.dom());
                assert(assigned_in(m, ctx.sessions.sessions(), id, assigned@));
                let (trace, results) = choose|
                    trace: Seq<AddressPool>,
                    results: Seq<Option<AssignedAddress>>,
                | #[trigger]
                    served_all(trace, id, req.requested_addresses@, results) && trace[0]
                        == before.pool && trace[req.requested_addresses@.len() as int] == mid.pool
                        && assigned@ == old(assigned)@ + somes(results)
                        && mid.engine.table().clients() == routed(
                        before.engine.table().clients(),
                        somes(results),
                        id,
                    );
                assert(served_all(trace, id, req.requested_addresses@, results));
                assert(requests_served(
                    before,
                    *ctx,
                    id,
                    req.requested_addresses@,
                    old(assigned)@,
                    assigned@,
                ));
            }
            Some(Capsule::AddressAssign(AddressAssign { assigned_addresses: copy_addrs(assigned) }))
        },
        Capsule::RouteAdvertisement(ra) => {
            if ctx.config.accept_client_routes {
                let nets = ctx.pool.pool_nets();
                let entries = entries_from_client_ranges(
                    id,
                    ra.ip_address_ranges.as_slice(),
                    nets.as_slice(),
                );
                ctx.engine.replace_session_routes(id, entries);
            }
            let ghost mid = *ctx;
            ctx.sessions.set_client_routes(id, ra.ip_address_ranges);
            proof {
                let m = mid.sessions.sessions();
                let routes = ra.ip_address_ranges;
                let change = |s: TunnelSession| TunnelSession { client_routes: routes, ..s };
                assert(ctx.sessions.sessions() == with_session(m, id, change));
                assert(ctx.sessions.sessions().remove(id.0) =~= m.remove(id.0));
                assert(ctx.sessions.sessions().dom() =~= m.dom());
            }
            None
        },
        Capsule::AddressAssign(assign) => {
            ctx.sessions.set_proxy_addresses(id, assign.assigned_addresses);
            proof {
                let m = before.sessions.sessions();
                let addrs = assign.assigned_addresses;
                let change = |s: TunnelSession| TunnelSession { proxy_addresses: addrs, ..s };
                assert(ctx.sessions.sessions() == with_session(m, id, change));
                assert(ctx.sessions.sessions().remove(id.0) =~= m.remove(id.0));
                assert(ctx.sessions.sessions().dom() =~= m.dom());
            }
            None
        },
        Capsule::Unknown { .. } => None,
    }
}

/// A session was forgotten: its addresses are back in the pool, and nothing
/// leads to it any more.
pub open spec fn torn_down(before: ProxyContext, after: ProxyContext, id: SessionId) -> bool {
    &&& after.config == before.config
    &&& after.auth == before.auth
    &&& after.pool.released(before.pool, id)
    &&& after.engine.same_settings(before.engine)
    &&& after.engine.table().clients() == without_session(before.engine.table().clients(), id.0)
    &&& after.engine.table().prefix_routes() == routes_elsewhere(
        before.engine.table().prefix_routes(),
        id,
    )
    &&& after.engine.states() == before.engine.states().remove(id.0)
    &&& after.sessions.limit() == before.sessions.limit()
    &&& after.sessions.sessions() == before.sessions.sessions().remove(id.0)
    &&& after.sessions.snapshots() == before.sessions.snapshots().remove(id.0)
}

/// Forget a session: its addresses go back to the pool, and nothing leads to
/// it any more.
pub fn teardown(ctx: &mut ProxyContext, id: SessionId)
    requires
        old(ctx).pool.wf(),
    ensures
        final(ctx).pool.wf(),
        torn_down(*old(ctx), *final(ctx), id),
{
    ctx.pool.release(id);
    ctx.engine.remove_session_routes(id);
    ctx.engine.unregister_session(id);
    ctx.sessions.remove(id);
}

/// After a teardown nothing leads to the session: no destination is routed to
/// it, no address is held by it, and no packet is delivered to it.
pub proof fn lemma_torn_down(
    before: ProxyContext,
    after: ProxyContext,
    id: SessionId,
    dst: IpAddr,
    proto: u8,
    k: (u8, u128),
)
    requires
        after.pool.released(before.pool, id),
        after.engine.table().clients() == without_session(before.engine.table().clients(), id.0),
        after.engine.table().prefix_routes() == routes_elsewhere(
            before.engine.table().prefix_routes(),
            id,
        ),
        after.engine.states() == before.engine.states().remove(id.0),
    ensures
        after.engine.table().spec_lookup(dst, proto) != Some(id),
        after.pool.owners().dom().contains(k) ==> after.pool.owners()[k] != id.0,
        !after.engine.session_allows(id, dst, proto),
{
    lemma_removed_session_unreachable(
        before.engine.table(),
        after.engine.table(),
        id,
        dst,
        proto,
    );
}

/// The routes a proxy advertises make a valid ROUTE_ADVERTISEMENT, and hold
/// every address of its pools.
pub proof fn lemma_advertised_valid(ctx: ProxyContext, a: IpAddr, proto: u8)
    ensures
        all_wf(routes_for(ctx)),
        ranges_ordered(routes_for(ctx)),
        IpNet::V4(ctx.pool.net4()).spec_contains(a) ==> ranges_allow(routes_for(ctx), a, proto),
        ctx.pool.net6() matches Some(net) ==> (IpNet::V6(net).spec_contains(a) ==> ranges_allow(
            routes_for(ctx),
            a,
            proto,
        )),
{
    let pools = net_ranges(pool_prefixes(ctx.pool));
    let rest = if ctx.config.split_routes@.len() == 0 {
        everything(ctx.config.ipv6_pool is Some)
    } else {
        net_ranges(ctx.config.split_routes@)
    };
    let all = pools + rest;
    lemma_net_ranges_wf(pool_prefixes(ctx.pool));
    lemma_net_ranges_wf(ctx.config.split_routes@);
    assert(all_wf(all));
    lemma_merge_valid(all);
    let nets = pool_prefixes(ctx.pool);
    lemma_pool_covered(all, nets, 0, a, proto);
    if ctx.pool.net6() is Some {
        lemma_pool_covered(all, nets, 1, a, proto);
    }
}

/// The ranges of prefixes hold every address of the prefixes.
proof fn lemma_pool_covered(
    all: Seq<IpAddressRange>,
    nets: Seq<IpNet>,
    i: int,
    a: IpAddr,
    proto: u8,
)
    requires
        all_wf(all),
        0 <= i < nets.len() <= all.len(),
        all[i] == net_ranges(nets)[i],
    ensures
        nets[i].spec_contains(a) ==> ranges_allow(coalesced(sorted_ranges(all)), a, proto),
{
    if nets[i].spec_contains(a) {
        lemma_of_net(nets[i], 0);
        lemma_advertised_covers(all, i, a, proto);
    }
}

proof fn lemma_net_ranges_wf(nets: Seq<IpNet>)
    ensures
        all_wf(net_ranges(nets)),
{
    assert forall|i: int| 0 <= i < net_ranges(nets).len() implies (#[trigger] net_ranges(
        nets,
    )[i]).wf() by {
        lemma_of_net(nets[i], 0);
    }
}

proof fn lemma_advertised_covers(all: Seq<IpAddressRange>, i: int, a: IpAddr, proto: u8)
    requires
        all_wf(all),
        0 <= i < all.len(),
        all[i].ip_protocol == 0,
        all[i].ip_version == a.spec_version(),
        all[i].start_ip.spec_value() <= a.spec_value() <= all[i].end_ip.spec_value(),
    ensures
        ranges_allow(coalesced(sorted_ranges(all)), a, proto),
{
    let version = a.spec_version();
    let value = a.spec_value();
    let merged = coalesced(sorted_ranges(all));
    lemma_merge_covers(all, version, 0, value);
    assert(all.contains(all[i]) && covers(all[i], version, 0, value));
    assert(covered(merged, version, 0, value));
    let r = choose|r: IpAddressRange| #[trigger]
        merged.contains(r) && covers(r, version, 0, value);
    let j = choose|j: int| 0 <= j < merged.len() && merged[j] == r;
    assert(merged[j].spec_contains(a, proto));
}

/// A list of ranges for all protocols allows exactly what it covers.
proof fn lemma_allow_covered(s: Seq<IpAddressRange>, a: IpAddr, proto: u8)
    requires
        forall|i: int| 0 <= i < s.len() ==> (#[trigger] s[i]).ip_protocol == 0,
    ensures
        ranges_allow(s, a, proto) <==> covered(s, a.spec_version(), 0, a.spec_value()),
{
    if ranges_allow(s, a, proto) {
        let i = choose|i: int| 0 <= i < s.len() && (#[trigger] s[i]).spec_contains(a, proto);
        assert(s.contains(s[i]) && covers(s[i], a.spec_version(), 0, a.spec_value()));
    }
    if covered(s, a.spec_version(), 0, a.spec_value()) {
        let r = choose|r: IpAddressRange| #[trigger]
            s.contains(r) && covers(r, a.spec_version(), 0, a.spec_value());
        let i = choose|i: int| 0 <= i < s.len() && s[i] == r;
        assert(s[i].spec_contains(a, proto));
    }
}

/// Merging ranges for all protocols gives ranges for all protocols.
proof fn lemma_merged_unscoped(all: Seq<IpAddressRange>)
    requires
        all_wf(all),
        forall|i: int| 0 <= i < all.len() ==> (#[trigger] all[i]).ip_protocol == 0,
    ensures
        ({
            let m = coalesced(sorted_ranges(all));
            forall|i: int| 0 <= i < m.len() ==> (#[trigger] m[i]).ip_protocol == 0
        }),
{
    let m = coalesced(sorted_ranges(all));
    lemma_merge_valid(all);
    assert forall|i: int| 0 <= i < m.len() implies (#[trigger] m[i]).ip_protocol == 0 by {
        let r = m[i];
        let value = r.start_ip.spec_value();
        assert(r.wf());
        assert(m.contains(r) && covers(r, r.ip_version, r.ip_protocol, value));
        lemma_merge_covers(all, r.ip_version, r.ip_protocol, value);
        let q = choose|q: IpAddressRange| #[trigger]
            all.contains(q) && covers(q, r.ip_version, r.ip_protocol, value);
        let k = choose|k: int| 0 <= k < all.len() && all[k] == q;
        assert(all[k].ip_protocol == 0);
    }
}

/// The range of a prefix covers what the prefix holds.
proof fn lemma_net_covers(net: IpNet, a: IpAddr)
    ensures
        covers(IpAddressRange::of_net(net, 0), a.spec_version(), 0, a.spec_value())
            <==> net.spec_contains(a),
{
    lemma_of_net(net, 0);
}

proof fn lemma_nets_cover(nets: Seq<IpNet>, a: IpAddr)
    ensures
        covered(net_ranges(nets), a.spec_version(), 0, a.spec_value()) <==> exists|i: int|
            0 <= i < nets.len() && (#[trigger] nets[i]).spec_contains(a),
{
    let s = net_ranges(nets);
    if covered(s, a.spec_version(), 0, a.spec_value()) {
        let r = choose|r: IpAddressRange| #[trigger]
            s.contains(r) && covers(r, a.spec_version(), 0, a.spec_value());
        let i = choose|i: int| 0 <= i < s.len() && s[i] == r;
        lemma_net_covers(nets[i], a);
        assert(nets[i].spec_contains(a));
    }
    if exists|i: int| 0 <= i < nets.len() && (#[trigger] nets[i]).spec_contains(a) {
        let i = choose|i: int| 0 <= i < nets.len() && (#[trigger] nets[i]).spec_contains(a);
        lemma_net_covers(nets[i], a);
        assert(s[i] == IpAddressRange::of_net(nets[i], 0));
        assert(s.contains(s[i]));
    }
}

proof fn lemma_covered_concat(
    x: Seq<IpAddressRange>,
    y: Seq<IpAddressRange>,
    ip_version: u8,
    value: nat,
)
    ensures
        covered(x + y, ip_version, 0, value) <==> covered(x, ip_version, 0, value) || covered(
            y,
            ip_version,
            0,
            value,
        ),
{
    let z = x + y;
    assert forall|r: IpAddressRange| #[trigger] z.contains(r) <==> x.contains(r) || y.contains(
        r,
    ) by {
        if x.contains(r) {
            let i = choose|i: int| 0 <= i < x.len() && x[i] == r;
            assert(z[i] == r);
        }
        if y.contains(r) {
            let i = choose|i: int| 0 <= i < y.len() && y[i] == r;
            assert(z[x.len() + i] == r);
        }
        if z.contains(r) {
            let i = choose|i: int| 0 <= i < z.len() && z[i] == r;
            if i < x.len() {
                assert(x[i] == r);
            } else {
                assert(y[i - x.len()] == r);
            }
        }
    }
    if covered(z, ip_version, 0, value) {
        let r = choose|r: IpAddressRange| #[trigger]
            z.contains(r) && covers(r, ip_version, 0, value);
        assert(x.contains(r) || y.contains(r));
    }
    if covered(x, ip_version, 0, value) {
        let r = choose|r: IpAddressRange| #[trigger]
            x.contains(r) && covers(r, ip_version, 0, value);
        assert(z.contains(r));
    }
    if covered(y, ip_version, 0, value) {
        let r = choose|r: IpAddressRange| #[trigger]
            y.contains(r) && covers(r, ip_version, 0, value);
        assert(z.contains(r));
    }
}

proof fn lemma_everything_covers(include_v6: bool, a: IpAddr)
    ensures
        covered(everything(include_v6), a.spec_version(), 0, a.spec_value()) <==> a is V4
            || include_v6,
{
    let s = everything(include_v6);
    assert(s.contains(s[0]));
    if include_v6 {
        assert(s.contains(s[1]));
    }
    if a is V4 {
        assert(covers(s[0], a.spec_version(), 0, a.spec_value()));
    } else if include_v6 {
        assert(covers(s[1], a.spec_version(), 0, a.spec_value()));
    }
}

/// What a session is told it may reach, and what is enforced: exactly the
/// addresses of the pools and of the configured split prefixes, or, without
/// any, every address of the served families; each under every protocol.
pub proof fn lemma_advertised_exactly(ctx: ProxyContext, a: IpAddr, proto: u8)
    ensures
        ranges_allow(routes_for(ctx), a, proto) <==> {
            ||| IpNet::V4(ctx.pool.net4()).spec_contains(a)
            ||| ctx.pool.net6() matches Some(net) && IpNet::V6(net).spec_contains(a)
            ||| exists|i: int|
                0 <= i < ctx.config.split_routes@.len() && (
                #[trigger] ctx.config.split_routes@[i]).spec_contains(a)
            ||| ctx.config.split_routes@.len() == 0 && (a is V4 || ctx.config.ipv6_pool is Some)
        },
        forall|i: int|
            0 <= i < routes_for(ctx).len() ==> (#[trigger] routes_for(ctx)[i]).ip_protocol == 0,
{
    let nets = pool_prefixes(ctx.pool);
    let pools = net_ranges(nets);
    let split = ctx.config.split_routes@;
    let rest = if split.len() == 0 {
        everything(ctx.config.ipv6_pool is Some)
    } else {
        net_ranges(split)
    };
    let all = pools + rest;
    let version = a.spec_version();
    let value = a.spec_value();
    lemma_net_ranges_wf(nets);
    lemma_net_ranges_wf(split);
    assert(all_wf(all));
    lemma_merged_unscoped(all);
    lemma_allow_covered(coalesced(sorted_ranges(all)), a, proto);
    lemma_merge_covers(all, version, 0, value);
    lemma_covered_concat(pools, rest, version, value);
    lemma_nets_cover(nets, a);
    lemma_nets_cover(split, a);
    lemma_everything_covers(ctx.config.ipv6_pool is Some, a);
    assert(nets[0] == IpNet::V4(ctx.pool.net4()));
    if ctx.pool.net6() is Some {
        assert(nets[1] == IpNet::V6(ctx.pool.net6()->0));
    }
}

/// Every address that leads to a session is held by it.
pub open spec fn leads_to_holders(
    clients: Map<(u8, u128), u64>,
    owners: Map<(u8, u128), u64>,
) -> bool {
    forall|k: (u8, u128)| #[trigger]
        clients.dom().contains(k) ==> owners.dom().contains(k) && owners[k] == clients[k]
}

/// The session holds every one of the addresses.
pub open spec fn holds_all(
    owners: Map<(u8, u128), u64>,
    id: SessionId,
    addrs: Seq<AssignedAddress>,
) -> bool {
    forall|i: int|
        0 <= i < addrs.len() ==> {
            let k = key_of((#[trigger] addrs[i]).ip_address);
            owners.dom().contains(k) && owners[k] == id.0
        }
}

/// At most one address went to a session, and nobody held it.
spec fn one_more(
    before: Map<(u8, u128), u64>,
    after: Map<(u8, u128), u64>,
    id: SessionId,
    r: Option<AssignedAddress>,
) -> bool {
    match r {
        Some(a) => !before.dom().contains(key_of(a.ip_address)) && after == before.insert(
            key_of(a.ip_address),
            id.0,
        ),
        None => after == before,
    }
}

proof fn lemma_served_one_more(
    before: AddressPool,
    after: AddressPool,
    id: SessionId,
    request: RequestedAddress,
    r: Option<AssignedAddress>,
)
    requires
        request_served(before, after, id, request, r),
    ensures
        one_more(before.owners(), after.owners(), id, r),
{
}

proof fn lemma_one_more_keeps(
    clients: Map<(u8, u128), u64>,
    before: Map<(u8, u128), u64>,
    after: Map<(u8, u128), u64>,
    id: SessionId,
    addrs: Seq<AssignedAddress>,
    r: Option<AssignedAddress>,
)
    requires
        leads_to_holders(clients, before),
        holds_all(before, id, addrs),
        one_more(before, after, id, r),
    ensures
        leads_to_holders(clients, after),
        leads_to_holders(routed(clients, somes(seq![r]), id), after),
        holds_all(after, id, addrs + somes(seq![r])),
{
    assert(seq![r].drop_last() =~= Seq::<Option<AssignedAddress>>::empty());
    reveal_with_fuel(somes, 2);
    match r {
        Some(a) => {
            assert(somes(seq![r]) =~= seq![a]);
            assert(seq![a].drop_last() =~= Seq::<AssignedAddress>::empty());
            reveal_with_fuel(routed, 2);
            let all = addrs + seq![a];
            assert forall|i: int| 0 <= i < all.len() implies {
                let k = key_of((#[trigger] all[i]).ip_address);
                after.dom().contains(k) && after[k] == id.0
            } by {
                if i < addrs.len() {
                    assert(all[i] == addrs[i]);
                }
            }
        },
        None => {
            assert(somes(seq![r]) =~= Seq::<AssignedAddress>::empty());
            assert(addrs + somes(seq![r]) =~= addrs);
        },
    }
}

proof fn lemma_routed_push(
    clients: Map<(u8, u128), u64>,
    addrs: Seq<AssignedAddress>,
    r: Option<AssignedAddress>,
    id: SessionId,
)
    ensures
        routed(clients, addrs + somes(seq![r]), id) == routed(
            routed(clients, addrs, id),
            somes(seq![r]),
            id,
        ),
{
    assert(seq![r].drop_last() =~= Seq::<Option<AssignedAddress>>::empty());
    reveal_with_fuel(somes, 2);
    match r {
        Some(a) => {
            assert(somes(seq![r]) =~= seq![a]);
            assert((addrs + seq![a]).drop_last() =~= addrs);
            assert(seq![a].drop_last() =~= Seq::<AssignedAddress>::empty());
            reveal_with_fuel(routed, 2);
        },
        None => {
            assert(somes(seq![r]) =~= Seq::<AssignedAddress>::empty());
            assert(addrs + somes(seq![r]) =~= addrs);
        },
    }
}

proof fn lemma_requests_keep(
    clients: Map<(u8, u128), u64>,
    assigned: Seq<AssignedAddress>,
    trace: Seq<AddressPool>,
    id: SessionId,
    requests: Seq<RequestedAddress>,
    results: Seq<Option<AssignedAddress>>,
    n: int,
)
    requires
        served_all(trace, id, requests, results),
        leads_to_holders(clients, trace[0].owners()),
        holds_all(trace[0].owners(), id, assigned),
        0 <= n <= requests.len(),
    ensures
        leads_to_holders(routed(clients, somes(results.take(n)), id), trace[n].owners()),
        holds_all(trace[n].owners(), id, assigned + somes(results.take(n))),
    decreases n,
{
    if n == 0 {
        assert(results.take(0) =~= Seq::<Option<AssignedAddress>>::empty());
        assert(assigned + somes(results.take(0)) =~= assigned);
    } else {
        lemma_requests_keep(clients, assigned, trace, id, requests, results, n - 1);
        let prefix = results.take(n - 1);
        let r = results[n - 1];
        assert(request_served(trace[n - 1], trace[n], id, requests[n - 1], r));
        lemma_served_one_more(trace[n - 1], trace[n], id, requests[n - 1], r);
        lemma_one_more_keeps(
            routed(clients, somes(prefix), id),
            trace[n - 1].owners(),
            trace[n].owners(),
            id,
            assigned + somes(prefix),
            r,
        );
        assert(results.take(n).drop_last() =~= prefix);
        assert(seq![r].drop_last() =~= Seq::<Option<AssignedAddress>>::empty());
        reveal_with_fuel(somes, 2);
        assert(somes(results.take(n)) =~= somes(prefix) + somes(seq![r]));
        lemma_routed_push(clients, somes(prefix), r, id);
        assert(assigned + somes(results.take(n)) =~= assigned + somes(prefix) + somes(seq![r]));
    }
}

/// A proxy that has no session yet leads no address to anyone.
pub proof fn lemma_fresh_leads_to_holders(ctx: ProxyContext, config: ProxyConfig)
    requires
        is_fresh(ctx, config),
    ensures
        leads_to_holders(ctx.engine.table().clients(), ctx.pool.owners()),
{
}

/// A packet for an address that a client was assigned goes to the session that
/// holds the address and to no other, whether it comes from another client or
/// from the network.
pub proof fn lemma_delivered_to_holder(
    ctx: ProxyContext,
    from: SessionId,
    assigned: Seq<AssignedAddress>,
    packet: Seq<u8>,
    info: PacketInfo,
    to: SessionId,
    sent: Seq<u8>,
)
    requires
        leads_to_holders(ctx.engine.table().clients(), ctx.pool.owners()),
        packet_info(packet) == Ok::<PacketInfo, ForwardingError>(info),
        ctx.engine.table().clients().dom().contains(key_of(info.dst)),
        ctx.engine.client_verdict(from, assigned, packet) == (VerdictView::Deliver {
            session: to,
            packet: sent,
        }) || ctx.engine.network_verdict(packet) == (VerdictView::Deliver {
            session: to,
            packet: sent,
        }),
    ensures
        ctx.pool.owners().dom().contains(key_of(info.dst)),
        ctx.pool.owners()[key_of(info.dst)] == to.0,
{
}

/// A new tunnel leads an address only to the session that holds it, from the
/// allocation of its addresses to the installation of its routes.
pub proof fn lemma_new_tunnel_leads_to_holders(
    before: ProxyContext,
    allocated: ProxyContext,
    installed: ProxyContext,
    id: SessionId,
    assigned: Seq<AssignedAddress>,
)
    requires
        leads_to_holders(before.engine.table().clients(), before.pool.owners()),
        first_addresses(before.pool, allocated.pool, id, assigned),
        allocated.engine == before.engine,
        installed.pool == allocated.pool,
        installed.engine.table().clients() == routed(
            allocated.engine.table().clients(),
            assigned,
            id,
        ),
    ensures
        leads_to_holders(allocated.engine.table().clients(), allocated.pool.owners()),
        leads_to_holders(installed.engine.table().clients(), installed.pool.owners()),
        holds_all(installed.pool.owners(), id, assigned),
{
    let clients = before.engine.table().clients();
    let (mid, r4, r6) = choose|
        mid: AddressPool,
        r4: Option<AssignedAddress>,
        r6: Option<AssignedAddress>,
    |
        #![trigger mid.after_v4(before.pool, id, 0, r4), allocated.pool.after_v6(mid, id, 0, r6)]
        mid.after_v4(before.pool, id, 0, r4) && mid.same_nets(before.pool) && mid.wf()
            && allocated.pool.after_v6(mid, id, 0, r6) && allocated.pool.same_nets(mid) && assigned
            == somes(seq![r4, r6]);
    let none = Seq::<AssignedAddress>::empty();
    assert(one_more(before.pool.owners(), mid.owners(), id, r4));
    assert(one_more(mid.owners(), allocated.pool.owners(), id, r6));
    lemma_one_more_keeps(clients, before.pool.owners(), mid.owners(), id, none, r4);
    assert(none + somes(seq![r4]) =~= somes(seq![r4]));
    lemma_one_more_keeps(
        routed(clients, somes(seq![r4]), id),
        mid.owners(),
        allocated.pool.owners(),
        id,
        somes(seq![r4]),
        r6,
    );
    lemma_one_more_keeps(clients, mid.owners(), allocated.pool.owners(), id, none, r6);
    lemma_routed_push(clients, somes(seq![r4]), r6, id);
    assert(seq![r4, r6].drop_last() =~= seq![r4]);
    assert(seq![r6].drop_last() =~= Seq::<Option<AssignedAddress>>::empty());
    reveal_with_fuel(somes, 2);
    assert(assigned =~= somes(seq![r4]) + somes(seq![r6]));
}

/// No capsule of a client leads an address to a session that does not hold
/// it, and the session goes on holding every address that it is told of.
pub proof fn lemma_capsule_leads_to_holders(
    before: ProxyContext,
    after: ProxyContext,
    capsule: CapsuleView,
    id: SessionId,
    assigned_before: Seq<AssignedAddress>,
    assigned_after: Seq<AssignedAddress>,
    reply: Option<CapsuleView>,
)
    requires
        leads_to_holders(before.engine.table().clients(), before.pool.owners()),
        holds_all(before.pool.owners(), id, assigned_before),
        capsule_handled(before, after, capsule, id, assigned_before, assigned_after, reply),
    ensures
        leads_to_holders(after.engine.table().clients(), after.pool.owners()),
        holds_all(after.pool.owners(), id, assigned_after),
        reply matches Some(CapsuleView::AddressAssign(told)) ==> holds_all(
            after.pool.owners(),
            id,
            told,
        ),
{
    if let CapsuleView::AddressRequest(requests) = capsule {
        let clients = before.engine.table().clients();
        let (trace, results) = choose|
            trace: Seq<AddressPool>,
            results: Seq<Option<AssignedAddress>>,
        | #[trigger]
            served_all(trace, id, requests, results) && trace[0] == before.pool
                && trace[requests.len() as int] == after.pool && assigned_after == assigned_before
                + somes(results) && after.engine.table().clients() == routed(
                clients,
                somes(results),
                id,
            );
        lemma_requests_keep(
            clients,
            assigned_before,
            trace,
            id,
            requests,
            results,
            requests.len() as int,
        );
        assert(results.take(requests.len() as int) =~= results);
    }
}

/// A teardown leads no address to a session that does not hold it, and takes
/// nothing from the other sessions.
pub proof fn lemma_teardown_leads_to_holders(
    before: ProxyContext,
    after: ProxyContext,
    id: SessionId,
    other: SessionId,
    addrs: Seq<AssignedAddress>,
)
    requires
        leads_to_holders(before.engine.table().clients(), before.pool.owners()),
        after.pool.released(before.pool, id),
        after.engine.table().clients() == without_session(before.engine.table().clients(), id.0),
    ensures
        leads_to_holders(after.engine.table().clients(), after.pool.owners()),
        other != id && holds_all(before.pool.owners(), other, addrs) ==> holds_all(
            after.pool.owners(),
            other,
            addrs,
        ),
{
}

/// A request opens a tunnel exactly if its method is CONNECT, its protocol is
/// connect-ip, and its capsule-protocol header says `?1`.
pub proof fn lemma_request_accepted(
    method: Seq<char>,
    protocol: Option<Seq<char>>,
    capsule_protocol: Option<Seq<char>>,
)
    ensures
        request_fault(method, protocol, capsule_protocol) is None <==> {
            &&& method == seq!['C', 'O', 'N', 'N', 'E', 'C', 'T']
            &&& protocol == Some(seq!['c', 'o', 'n', 'n', 'e', 'c', 't', '-', 'i', 'p'])
            &&& capsule_protocol matches Some(v) && trimmed(v) == seq!['?', '1']
        },
{
    reveal_strlit("CONNECT");
    reveal_strlit("connect-ip");
    reveal_strlit("?1");
    assert("CONNECT"@ =~= seq!['C', 'O', 'N', 'N', 'E', 'C', 'T']);
    assert("connect-ip"@ =~= seq!['c', 'o', 'n', 'n', 'e', 'c', 't', '-', 'i', 'p']);
    assert("?1"@ =~= seq!['?', '1']);
}

/// A new session gets an IPv4 address whenever one is free, and after it an
/// IPv6 address whenever one is free among those that are tried. Each is one
/// that nobody held, is handed out as a single address under request zero, and
/// is the session's from then on.
pub proof fn lemma_first_addresses(
    before: AddressPool,
    after: AddressPool,
    id: SessionId,
    assigned: Seq<AssignedAddress>,
    k: (u8, u128),
)
    requires
        before.wf(),
        first_addresses(before, after, id, assigned),
    ensures
        assigned.len() <= 2,
        k.0 == 4 && before.net4().spec_network() + 2 <= k.1 < before.net4().spec_broadcast()
            && !before.owners().dom().contains(k) ==> assigned.len() > 0
            && assigned[0].ip_address is V4,
        before.net6() matches Some(net) ==> (k.0 == 6 && net.spec_network() + 2 <= k.1
            <= net.spec_broadcast() && k.1 < net.spec_network() + 0x1_0000_0000_0000_0000
            && !before.owners().dom().contains(k) ==> assigned.len() > 0
            && assigned.last().ip_address is V6),
        assigned.len() == 2 ==> assigned[0].ip_address is V4 && assigned[1].ip_address is V6,
        forall|i: int|
            0 <= i < assigned.len() ==> {
                let a = #[trigger] assigned[i];
                let key = (a.ip_address.spec_version(), a.ip_address.spec_value() as u128);
                &&& a.request_id == 0
                &&& a.prefix_length == if a.ip_address is V4 {
                    32int
                } else {
                    128
                }
                &&& !before.owners().dom().contains(key)
                &&& after.owners().dom().contains(key)
                &&& after.owners()[key] == id.0
            },
{
    let (mid, r4, r6) = choose|
        mid: AddressPool,
        r4: Option<AssignedAddress>,
        r6: Option<AssignedAddress>,
    |
        #![trigger mid.after_v4(before, id, 0, r4), after.after_v6(mid, id, 0, r6)]
        mid.after_v4(before, id, 0, r4) && mid.same_nets(before) && mid.wf() && after.after_v6(
            mid,
            id,
            0,
            r6,
        ) && after.same_nets(mid) && assigned == somes(seq![r4, r6]);
    let any4 = RequestedAddress {
        request_id: 0,
        ip_version: 4,
        ip_address: IpAddr::V4(Ipv4Addr { bits: 0 }),
        prefix_length: 32,
    };
    let any6 = RequestedAddress {
        request_id: 0,
        ip_version: 6,
        ip_address: IpAddr::V6(Ipv6Addr { bits: 0 }),
        prefix_length: 128,
    };
    lemma_request_served(before, mid, id, any4, r4, k, 0);
    lemma_request_served(mid, after, id, any6, r6, k, 0);
    assert(seq![r4, r6].drop_last() =~= seq![r4]);
    assert(seq![r4].drop_last() =~= Seq::<Option<AssignedAddress>>::empty());
    reveal_with_fuel(somes, 3);
    if let Some(a) = r4 {
        lemma_request_served(mid, after, id, any6, r6, key_of(a.ip_address), 0);
    }
    if let Some(a) = r6 {
        lemma_request_served(before, mid, id, any4, r4, key_of(a.ip_address), 0);
        lemma_request_served(mid, after, id, any6, r6, key_of(a.ip_address), 0);
    }
}

proof fn lemma_somes_holds(rs: Seq<Option<AssignedAddress>>, j: int)
    requires
        0 <= j < rs.len(),
        rs[j] is Some,
    ensures
        exists|i: int| 0 <= i < somes(rs).len() && #[trigger] somes(rs)[i] == rs[j]->0,
    decreases rs.len(),
{
    let d = rs.drop_last();
    if j < d.len() {
        lemma_somes_holds(d, j);
        let i = choose|i: int| 0 <= i < somes(d).len() && #[trigger] somes(d)[i] == d[j]->0;
        assert(somes(rs)[i] == somes(d)[i]);
    } else {
        let n = somes(d).len() as int;
        assert(somes(rs)[n] == rs[j]->0);
    }
}

proof fn lemma_somes_from(rs: Seq<Option<AssignedAddress>>, i: int)
    requires
        0 <= i < somes(rs).len(),
    ensures
        exists|j: int| 0 <= j < rs.len() && #[trigger] rs[j] == Some(somes(rs)[i]),
    decreases rs.len(),
{
    let d = rs.drop_last();
    if i < somes(d).len() {
        lemma_somes_from(d, i);
        let j = choose|j: int| 0 <= j < d.len() && #[trigger] d[j] == Some(somes(d)[i]);
        assert(rs[j] == d[j]);
    } else {
        assert(rs[rs.len() - 1] == Some(somes(rs)[i]));
    }
}

proof fn lemma_holders_stay(
    trace: Seq<AddressPool>,
    id: SessionId,
    requests: Seq<RequestedAddress>,
    results: Seq<Option<AssignedAddress>>,
    m: int,
    n: int,
    k: (u8, u128),
)
    requires
        served_all(trace, id, requests, results),
        trace[0].wf(),
        0 <= m <= n <= requests.len(),
    ensures
        trace[n].wf(),
        trace[m].wf(),
        trace[n].same_nets(trace[m]),
        trace[m].owners().dom().contains(k) ==> trace[n].owners().dom().contains(k)
            && trace[n].owners()[k] == trace[m].owners()[k],
    decreases n,
{
    if n > m {
        lemma_holders_stay(trace, id, requests, results, m, n - 1, k);
        assert(request_served(trace[n - 1], trace[n], id, requests[n - 1], results[n - 1]));
        lemma_request_served(
            trace[n - 1],
            trace[n],
            id,
            requests[n - 1],
            results[n - 1],
            k,
            0,
        );
    } else if n > 0 {
        lemma_holders_stay(trace, id, requests, results, m - 1, n - 1, k);
        assert(request_served(trace[n - 1], trace[n], id, requests[n - 1], results[n - 1]));
    }
}

/// The reply to an ADDRESS_REQUEST lists what the session had and then what it
/// got. Every request got an address under its own number, or is left out
/// because no address that it could have got is free. What the session got
/// nobody held; it now holds it, and packets for it lead to it.
pub proof fn lemma_requests_answered(
    before: ProxyContext,
    after: ProxyContext,
    id: SessionId,
    requests: Seq<RequestedAddress>,
    had: Seq<AssignedAddress>,
    has: Seq<AssignedAddress>,
    reply: Option<CapsuleView>,
    j: int,
    i: int,
    k: (u8, u128),
)
    requires
        before.pool.wf(),
        capsule_handled(before, after, CapsuleView::AddressRequest(requests), id, had, has, reply),
        0 <= j < requests.len(),
        had.len() <= i < has.len() || had.len() == has.len(),
    ensures
        reply == Some(CapsuleView::AddressAssign(has)),
        had.len() <= has.len(),
        has.take(had.len() as int) == had,
        ({
            ||| exists|n: int|
                had.len() <= n < has.len() && (#[trigger] has[n]).request_id
                    == requests[j].request_id
            ||| requests[j].ip_version == 4 && (k.0 == 4 && before.pool.net4().spec_network() + 2
                <= k.1 < before.pool.net4().spec_broadcast()
                ==> after.pool.owners().dom().contains(k))
            ||| requests[j].ip_version == 6 && (before.pool.net6() matches Some(net) ==> (k.0 == 6
                && net.spec_network() + 2 <= k.1 <= net.spec_broadcast() && k.1
                < net.spec_network() + 0x1_0000_0000_0000_0000
                ==> after.pool.owners().dom().contains(k)))
            ||| requests[j].ip_version != 4 && requests[j].ip_version != 6
        }),
        had.len() < has.len() ==> {
            let got = (has[i].ip_address.spec_version(), has[i].ip_address.spec_value() as u128);
            &&& !before.pool.owners().dom().contains(got)
            &&& after.pool.owners().dom().contains(got)
            &&& after.pool.owners()[got] == id.0
            &&& after.engine.table().clients().dom().contains(got)
            &&& after.engine.table().clients()[got] == id.0
            &&& exists|n: int|
                0 <= n < requests.len() && (#[trigger] requests[n]).request_id == has[i].request_id
        },
{
    let clients = before.engine.table().clients();
    let (trace, results) = choose|trace: Seq<AddressPool>, results: Seq<Option<AssignedAddress>>|
     #[trigger]
        served_all(trace, id, requests, results) && trace[0] == before.pool
            && trace[requests.len() as int] == after.pool && has == had + somes(results)
            && after.engine.table().clients() == routed(clients, somes(results), id);
    let last = requests.len() as int;
    assert(has.take(had.len() as int) =~= had);
    lemma_holders_stay(trace, id, requests, results, 0, j, k);
    lemma_holders_stay(trace, id, requests, results, j + 1, last, k);
    assert(request_served(trace[j], trace[j + 1], id, requests[j], results[j]));
    lemma_request_served(trace[j], trace[j + 1], id, requests[j], results[j], k, 0);
    if results[j] is Some {
        lemma_somes_holds(results, j);
        let n = choose|n: int|
            0 <= n < somes(results).len() && #[trigger] somes(results)[n] == results[j]->0;
        assert(has[had.len() + n] == somes(results)[n]);
    }
    if had.len() < has.len() {
        let n = i - had.len();
        let a = somes(results)[n];
        assert(has[i] == a);
        lemma_somes_from(results, n);
        let q = choose|q: int| 0 <= q < results.len() && #[trigger] results[q] == Some(a);
        let got = key_of(a.ip_address);
        lemma_holders_stay(trace, id, requests, results, 0, q, got);
        assert(request_served(trace[q], trace[q + 1], id, requests[q], results[q]));
        lemma_request_served(trace[q], trace[q + 1], id, requests[q], results[q], got, 0);
        lemma_holders_stay(trace, id, requests, results, q + 1, last, got);
        assert(requests[q].request_id == a.request_id);
        lemma_routed(clients, somes(results), id, got);
        assert(key_of(somes(results)[n].ip_address) == got);
    }
}

/// A ROUTE_ADVERTISEMENT of a client leaves the routes of the others. Where
/// client routes are accepted, an address leads to the client under a protocol
/// scope exactly if a range of this very advertisement holds it so and shares
/// no address with a pool, up to the number of prefixes that a client may have;
/// where they are not, nothing changes.
pub proof fn lemma_client_routes(
    before: ProxyContext,
    after: ProxyContext,
    id: SessionId,
    ranges: Seq<IpAddressRange>,
    had: Seq<AssignedAddress>,
    has: Seq<AssignedAddress>,
    reply: Option<CapsuleView>,
    r: RouteEntry,
    ip_protocol: u8,
    x: IpAddr,
)
    requires
        capsule_handled(
            before,
            after,
            CapsuleView::RouteAdvertisement(ranges),
            id,
            had,
            has,
            reply,
        ),
    ensures
        reply is None,
        has == had,
        r.session_id != id ==> (after.engine.table().prefix_routes().contains(r)
            <==> before.engine.table().prefix_routes().contains(r)),
        !before.config.accept_client_routes ==> after.engine.table().prefix_routes()
            == before.engine.table().prefix_routes(),
        before.config.accept_client_routes && ranges_entries(
            id,
            ranges,
            pool_prefixes(before.pool),
        ).len() <= 128 ==> (entry_for(
            after.engine.table().prefix_routes(),
            id,
            ip_protocol,
            x,
        ) <==> range_for(ranges, pool_prefixes(before.pool), ip_protocol, x)),
{
    if before.config.accept_client_routes {
        let deny = pool_prefixes(before.pool);
        let kept = routes_elsewhere(before.engine.table().prefix_routes(), id);
        let all = ranges_entries(id, ranges, deny);
        let mine = capped(all);
        let routes = kept + mine;
        lemma_other_routes_stay(before.engine.table().prefix_routes(), id, r);
        lemma_client_entries(id, ranges, deny, ip_protocol, x);
        lemma_entries_mine(id, ranges, deny);
        assert(forall|i: int| 0 <= i < mine.len() ==> #[trigger] mine[i] == all[i]);
        if kept.contains(r) {
            let i = choose|i: int| 0 <= i < kept.len() && #[trigger] kept[i] == r;
            assert(routes[i] == r);
        }
        if routes.contains(r) && r.session_id != id {
            let i = choose|i: int| 0 <= i < routes.len() && #[trigger] routes[i] == r;
            if i >= kept.len() {
                assert(mine[i - kept.len()] == r);
            } else {
                assert(kept[i] == r);
            }
        }
        if entry_for(routes, id, ip_protocol, x) {
            let i = choose|i: int|
                0 <= i < routes.len() && (#[trigger] routes[i]).session_id == id
                    && routes[i].ip_protocol == ip_protocol && routes[i].prefix.spec_contains(x);
            if i < kept.len() {
                lemma_other_routes_stay(before.engine.table().prefix_routes(), id, kept[i]);
                assert(kept[i] == routes[i]);
                assert(kept.contains(kept[i]));
            } else {
                assert(mine[i - kept.len()] == routes[i]);
            }
        }
        if entry_for(mine, id, ip_protocol, x) {
            let i = choose|i: int|
                0 <= i < mine.len() && (#[trigger] mine[i]).session_id == id
                    && mine[i].ip_protocol == ip_protocol && mine[i].prefix.spec_contains(x);
            assert(routes[kept.len() + i] == mine[i]);
        }
    }
}

/// A full tunnel leads every IPv4 address, and every IPv6 address where it is
/// served, whatever the protocol.
pub proof fn lemma_full_tunnel(include_v6: bool, a: IpAddr, proto: u8)
    ensures
        ranges_allow(everything(include_v6), a, proto) <==> a is V4 || include_v6,
{
    let s = everything(include_v6);
    if a is V4 {
        assert(s[0].spec_contains(a, proto));
    } else if include_v6 {
        assert(s[1].spec_contains(a, proto));
    }
}

/// Once a tunnel is installed, a packet for any of its addresses leads to its
/// session, which may reach exactly what was advertised to it, and whose
/// addresses are known for the check of its packets. Other sessions, and where
/// other addresses lead, are as before.
pub proof fn lemma_tunnel_installed(
    before: ProxyContext,
    after: ProxyContext,
    id: SessionId,
    assigned: Seq<AssignedAddress>,
    routes: Seq<IpAddressRange>,
    mtu: usize,
    i: int,
    dst: IpAddr,
    proto: u8,
    other: u64,
)
    requires
        tunnel_installed(before, after, id, assigned, routes, mtu),
    ensures
        0 <= i < assigned.len() ==> after.engine.table().spec_lookup(assigned[i].ip_address, proto)
            == Some(id),
        after.engine.session_allows(id, dst, proto) <==> ranges_allow(routes, dst, proto),
        after.engine.spec_session_mtu(id) == mtu,
        after.sessions.snapshots().dom().contains(id.0),
        after.sessions.snapshots()[id.0] == assigned,
        before.sessions.sessions().dom().contains(id.0)
            ==> after.sessions.sessions().dom().contains(id.0)
            && after.sessions.sessions()[id.0].assigned_addresses@ == assigned,
        other != id.0 ==> (after.engine.states().dom().contains(other)
            <==> before.engine.states().dom().contains(other)) && after.engine.states()[other]
            == before.engine.states()[other],
        other != id.0 && before.sessions.snapshots().dom().contains(other)
            ==> after.sessions.snapshots().dom().contains(other)
            && after.sessions.snapshots()[other] == before.sessions.snapshots()[other],
        (forall|j: int| 0 <= j < assigned.len() ==> (#[trigger] assigned[j]).ip_address != dst)
            ==> after.engine.table().spec_lookup(dst, proto)
            == before.engine.table().spec_lookup(dst, proto),
{
    let clients = before.engine.table().clients();
    if 0 <= i < assigned.len() {
        let k = key_of(assigned[i].ip_address);
        lemma_routed(clients, assigned, id, k);
        assert(key_of(assigned[i].ip_address) == k);
        crate::forwarding::router::lemma_lookup(
            after.engine.table(),
            assigned[i].ip_address,
            proto,
        );
    }
    if other != id.0 {
        assert(after.engine.states().remove(id.0)[other] == before.engine.states().remove(
            id.0,
        )[other]);
        assert(after.engine.states().remove(id.0).dom().contains(other)
            <==> before.engine.states().remove(id.0).dom().contains(other));
    }
    if forall|j: int| 0 <= j < assigned.len() ==> (#[trigger] assigned[j]).ip_address != dst {
        let k = key_of(dst);
        assert forall|j: int| 0 <= j < assigned.len() implies key_of(
            (#[trigger] assigned[j]).ip_address,
        ) != k by {
            if key_of(assigned[j].ip_address) == k {
                crate::forwarding::router::lemma_key_injective(assigned[j].ip_address, dst);
            }
        }
        lemma_routed(clients, assigned, id, k);
    }
}

/// A teardown takes nothing from the other sessions: what they are registered
/// with, what was assigned to them, and their routes are as before.
pub proof fn lemma_teardown_spares(
    before: ProxyContext,
    after: ProxyContext,
    id: SessionId,
    other: u64,
    r: RouteEntry,
    k: (u8, u128),
)
    requires
        torn_down(before, after, id),
    ensures
        !after.sessions.sessions().dom().contains(id.0),
        !after.sessions.snapshots().dom().contains(id.0),
        other != id.0 ==> (after.sessions.sessions().dom().contains(other)
            <==> before.sessions.sessions().dom().contains(other)),
        other != id.0 && before.sessions.sessions().dom().contains(other)
            ==> after.sessions.sessions()[other] == before.sessions.sessions()[other],
        other != id.0 && before.sessions.snapshots().dom().contains(other)
            ==> after.sessions.snapshots().dom().contains(other)
            && after.sessions.snapshots()[other] == before.sessions.snapshots()[other],
        other != id.0 && before.engine.states().dom().contains(other)
            ==> after.engine.states().dom().contains(other) && after.engine.states()[other]
            == before.engine.states()[other],
        r.session_id != id ==> (after.engine.table().prefix_routes().contains(r)
            <==> before.engine.table().prefix_routes().contains(r)),
        before.engine.table().clients().dom().contains(k) && before.engine.table().clients()[k]
            != id.0 ==> after.engine.table().clients().dom().contains(k)
            && after.engine.table().clients()[k] == before.engine.table().clients()[k],
{
    lemma_other_routes_stay(before.engine.table().prefix_routes(), id, r);
}

/// A session that was forgotten is out of reach: no destination leads to it, no
/// address is held by it, it may send nowhere, and what it held may be handed
/// out again.
pub proof fn lemma_forgotten(
    before: ProxyContext,
    after: ProxyContext,
    id: SessionId,
    dst: IpAddr,
    proto: u8,
    k: (u8, u128),
)
    requires
        torn_down(before, after, id),
    ensures
        after.engine.table().spec_lookup(dst, proto) != Some(id),
        after.pool.owners().dom().contains(k) ==> after.pool.owners()[k] != id.0,
        !after.engine.session_allows(id, dst, proto),
        before.pool.owners().dom().contains(k) && before.pool.owners()[k] == id.0
            ==> !after.pool.owners().dom().contains(k),
        before.pool.owners().dom().contains(k) && before.pool.owners()[k] != id.0
            ==> after.pool.owners().dom().contains(k) && after.pool.owners()[k]
            == before.pool.owners()[k],
        leads_to_holders(before.engine.table().clients(), before.pool.owners())
            ==> leads_to_holders(after.engine.table().clients(), after.pool.owners()),
{
    lemma_torn_down(before, after, id, dst, proto, k);
    if leads_to_holders(before.engine.table().clients(), before.pool.owners()) {
        lemma_teardown_leads_to_holders(before, after, id, id, Seq::empty());
    }
}

/// What came of some requests is listed in their order, without those that
/// nothing came of.
pub proof fn lemma_somes_order(rs: Seq<Option<AssignedAddress>>, a: AssignedAddress)
    ensures
        somes(Seq::empty()) == Seq::<AssignedAddress>::empty(),
        somes(rs.push(Some(a))) == somes(rs).push(a),
        somes(rs.push(None)) == somes(rs),
{
    assert(rs.push(Some(a)).drop_last() =~= rs);
    assert(rs.push(None).drop_last() =~= rs);
}

/// What a client says is recorded at its session, and at no other: the
/// addresses it assigns, the routes it advertises, and the addresses that came
/// of its requests, which are then also those that its packets are checked
/// against. A capsule of an unknown type changes nothing. Only a request is
/// answered.
pub proof fn lemma_capsule_recorded(
    before: ProxyContext,
    after: ProxyContext,
    capsule: CapsuleView,
    id: SessionId,
    had: Seq<AssignedAddress>,
    has: Seq<AssignedAddress>,
    reply: Option<CapsuleView>,
    other: u64,
)
    requires
        capsule_handled(before, after, capsule, id, had, has, reply),
    ensures
        reply is Some <==> capsule is AddressRequest,
        capsule is Unknown ==> after == before,
        !(capsule is AddressRequest) ==> has == had && after.sessions.snapshots()
            == before.sessions.snapshots() && after.pool == before.pool,
        other != id.0 && before.sessions.sessions().dom().contains(other)
            ==> after.sessions.sessions().dom().contains(other) && after.sessions.sessions()[other]
            == before.sessions.sessions()[other],
        before.sessions.sessions().dom().contains(id.0) ==> {
            let s = before.sessions.sessions()[id.0];
            let t = after.sessions.sessions()[id.0];
            &&& after.sessions.sessions().dom().contains(id.0)
            &&& capsule matches CapsuleView::AddressAssign(addrs) ==> t.proxy_addresses@ == addrs
                && t.client_routes == s.client_routes && t.assigned_addresses
                == s.assigned_addresses
            &&& capsule matches CapsuleView::RouteAdvertisement(ranges) ==> t.client_routes@
                == ranges && t.proxy_addresses == s.proxy_addresses && t.assigned_addresses
                == s.assigned_addresses
            &&& capsule is AddressRequest ==> t.assigned_addresses@ == has && t.proxy_addresses
                == s.proxy_addresses && t.client_routes == s.client_routes
        },
        capsule is AddressRequest ==> after.sessions.snapshots().dom().contains(id.0)
            && after.sessions.snapshots()[id.0] == has,
{
    if other != id.0 && before.sessions.sessions().dom().contains(other) {
        assert(before.sessions.sessions().remove(id.0).dom().contains(other));
        assert(after.sessions.sessions().dom().contains(other));
        assert(after.sessions.sessions().remove(id.0)[other] == before.sessions.sessions().remove(
            id.0,
        )[other]);
    }
}

} // verus!
