//! IPv4/IPv6 address allocation for tunnel sessions.
//!
//! Addresses are handed out lazily (cursor + free list) so huge ranges —
//! an IPv6 /64 has 2^64 hosts — never get materialized.

use std::collections::BTreeSet;

use dashmap::DashMap;
use vstd::arithmetic::power2::pow2;
use vstd::prelude::*;

use crate::capsule::{AssignedAddress, RequestedAddress};
use crate::forwarding::router::{
    addr_key, addr_map, addr_map_get, addr_map_insert, addr_map_new, addr_map_remove, key_of,
    no_addrs, without_session,
};
use crate::net::{lemma_net_bounds, lemma_width_128, net_size, IpAddr, IpNet, Ipv4Addr, Ipv4Net, Ipv6Addr, Ipv6Net};
use crate::session::SessionId;

verus! {

/// What a map from sessions to the addresses that they hold holds.
pub uninterp spec fn held_map(m: DashMap<u64, Vec<IpAddr>>) -> Map<u64, Seq<IpAddr>>;

/// No session at all.
pub open spec fn nothing_held() -> Map<u64, Seq<IpAddr>> {
    Map::empty()
}

/// `DashMap::new`: an empty map.
#[verifier::external_body]
fn held_map_new() -> (m: DashMap<u64, Vec<IpAddr>>)
    ensures
        held_map(m) == nothing_held(),
{
    DashMap::new()
}

/// `DashMap::insert`: sets the value of a key.
#[verifier::external_body]
fn held_map_insert(m: &mut DashMap<u64, Vec<IpAddr>>, session: u64, addrs: Vec<IpAddr>)
    ensures
        held_map(*final(m)) == held_map(*old(m)).insert(session, addrs@),
{
    m.insert(session, addrs);
}

/// The addresses that a session holds.
pub open spec fn held_by(m: Map<u64, Seq<IpAddr>>, session: u64) -> Option<Seq<IpAddr>> {
    if m.dom().contains(session) {
        Some(m[session])
    } else {
        None
    }
}

/// The view of an optional list.
pub open spec fn listed(v: Option<Vec<IpAddr>>) -> Option<Seq<IpAddr>> {
    match v {
        Some(v) => Some(v@),
        None => None,
    }
}

/// `DashMap::remove`: takes a key and its value out, if it is there.
#[verifier::external_body]
fn held_map_remove(m: &mut DashMap<u64, Vec<IpAddr>>, session: u64) -> (r: Option<Vec<IpAddr>>)
    ensures
        held_map(*final(m)) == held_map(*old(m)).remove(session),
        listed(r) == held_by(held_map(*old(m)), session),
{
    m.remove(&session).map(|kv| kv.1)
}

/// `a` is the least element of `s`.
pub open spec fn least(s: Set<u128>, a: u128) -> bool {
    s.contains(a) && forall|x: u128| #[trigger] s.contains(x) ==> a <= x
}

/// The set has an element.
pub open spec fn has_any(s: Set<u128>) -> bool {
    exists|x: u128| #[trigger] s.contains(x)
}

/// `BTreeSet::pop_first`: takes the least element out, if there is one.
#[verifier::external_body]
fn pop_first(s: &mut BTreeSet<u128>) -> (r: Option<u128>)
    ensures
        match r {
            Some(a) => least(old(s)@, a) && final(s)@ == old(s)@.remove(a),
            None => !has_any(old(s)@) && final(s)@ == old(s)@,
        },
{
    s.pop_first()
}

/// The hosts of one prefix that are given out in order.
#[derive(Debug)]
struct HostPool {
    base: u128,
    /// Offsets from `hosts` on are not given out.
    hosts: u128,
    /// Offset of the next never-used host (0 = network address).
    cursor: u128,
    /// Released addresses available for reuse.
    free: BTreeSet<u128>,
}

/// A host pool as plain values.
pub struct PoolView {
    pub base: nat,
    pub hosts: nat,
    pub cursor: nat,
    pub free: Set<u128>,
}

impl PoolView {
    /// A pool that has given nothing out.
    pub open spec fn fresh(base: nat, hosts: nat) -> PoolView {
        PoolView { base, hosts, cursor: 0, free: Set::empty() }
    }

    /// The first offset that the cursor gives out next. Offset 0 (the network
    /// address) and offset 1 (the gateway, which the proxy reserves for itself
    /// on the TUN interface) are skipped.
    pub open spec fn next_offset(self) -> nat {
        if self.cursor < 2 {
            2
        } else {
            self.cursor
        }
    }

    /// Every address that the cursor has passed is in use or free.
    pub open spec fn inv(self, taken: Set<u128>) -> bool {
        &&& self.base + self.hosts <= 0x1_0000_0000_0000_0000_0000_0000_0000_0000
        &&& self.cursor <= self.hosts
        &&& self.free.finite()
        &&& forall|a: u128|
            self.base + 2 <= a < self.base + self.cursor ==> #[trigger] taken.contains(a)
                || self.free.contains(a)
    }

    /// `r` is what the pool gives out while the addresses of `taken` are in
    /// use, and `after` is the pool then: the least released address, else
    /// the first never-used host, else none.
    pub open spec fn gives(self, taken: Set<u128>, r: Option<u128>, after: PoolView) -> bool {
        &&& after.base == self.base
        &&& after.hosts == self.hosts
        &&& match r {
            Some(a) => if has_any(self.free.difference(taken)) {
                &&& least(self.free.difference(taken), a)
                &&& after.free == self.free.filter(|x: u128| x > a)
                &&& after.cursor == self.cursor
            } else {
                &&& self.base + self.next_offset() <= a < self.base + self.hosts
                &&& !taken.contains(a)
                &&& forall|x: u128|
                    self.base + self.next_offset() <= x < a ==> #[trigger] taken.contains(x)
                &&& after.free == Set::<u128>::empty()
                &&& after.cursor == a - self.base + 1
            },
            None => {
                &&& forall|x: u128| #[trigger] self.free.contains(x) ==> taken.contains(x)
                &&& forall|x: u128|
                    self.base + self.next_offset() <= x < self.base + self.hosts
                        ==> #[trigger] taken.contains(x)
                &&& after.free == Set::<u128>::empty()
                &&& after.cursor == self.hosts
            },
        }
    }
}

/// Giving an address out keeps a pool's invariant, once the address counts as
/// in use.
proof fn lemma_gives_inv(
    p: PoolView,
    taken: Set<u128>,
    r: Option<u128>,
    q: PoolView,
    taken_after: Set<u128>,
)
    requires
        p.inv(taken),
        p.gives(taken, r, q),
        forall|x: u128| #[trigger] taken.contains(x) ==> taken_after.contains(x),
        r matches Some(a) ==> taken_after.contains(a),
    ensures
        q.inv(taken_after),
{
    let d = p.free.difference(taken);
    assert forall|a: u128| q.base + 2 <= a < q.base + q.cursor implies #[trigger]
        taken_after.contains(a) || q.free.contains(a) by {
        if a < p.base + p.cursor {
            assert(taken.contains(a) || p.free.contains(a));
            if !taken.contains(a) {
                assert(d.contains(a));
                assert(has_any(d));
            }
        } else {
            assert(taken.contains(a) || r == Some(a));
        }
    }
    if r is Some && has_any(d) {
        assert(q.free.subset_of(p.free));
        vstd::set_lib::lemma_set_subset_finite(p.free, q.free);
    }
}

/// More addresses in use keep a pool's invariant.
proof fn lemma_inv_grows(p: PoolView, taken: Set<u128>, taken_after: Set<u128>)
    requires
        p.inv(taken),
        forall|x: u128| #[trigger] taken.contains(x) ==> taken_after.contains(x),
    ensures
        p.inv(taken_after),
{
    assert forall|a: u128| p.base + 2 <= a < p.base + p.cursor implies #[trigger]
        taken_after.contains(a) || p.free.contains(a) by {
        assert(taken.contains(a) || p.free.contains(a));
    }
}

/// The addresses of one IP version that are in use.
pub open spec fn taken_of(owners: Map<(u8, u128), u64>, version: u8) -> Set<u128> {
    Set::new(|x: u128| owners.dom().contains((version, x)))
}

impl HostPool {
    spec fn pv(self) -> PoolView {
        PoolView {
            base: self.base as nat,
            hosts: self.hosts as nat,
            cursor: self.cursor as nat,
            free: self.free@,
        }
    }

    fn new(base: u128, hosts: u128) -> (p: Self)
        ensures
            p.pv() == PoolView::fresh(base as nat, hosts as nat),
    {
        HostPool { base, hosts, cursor: 0, free: BTreeSet::new() }
    }

    fn next(&mut self) -> (r: Option<u128>)
        requires
            old(self).pv().base + old(self).pv().hosts
                <= 0x1_0000_0000_0000_0000_0000_0000_0000_0000,
            old(self).cursor <= old(self).hosts,
        ensures
            final(self).base == old(self).base,
            final(self).hosts == old(self).hosts,
            match r {
                Some(a) => if has_any(old(self).free@) {
                    &&& least(old(self).free@, a)
                    &&& final(self).free@ == old(self).free@.remove(a)
                    &&& final(self).cursor == old(self).cursor
                } else {
                    &&& a == old(self).base + old(self).pv().next_offset()
                    &&& old(self).pv().next_offset() < old(self).hosts
                    &&& final(self).free@ == old(self).free@
                    &&& final(self).cursor == old(self).pv().next_offset() + 1
                },
                None => {
                    &&& !has_any(old(self).free@)
                    &&& final(self).free@ == old(self).free@
                    &&& old(self).pv().next_offset() >= old(self).hosts
                    &&& final(self).cursor == old(self).hosts
                },
            },
    {
        match pop_first(&mut self.free) {
            Some(addr) => {
                return Some(addr);
            },
            None => {},
        }
        if self.cursor < 2 {
            self.cursor = 2;
        }
        if self.cursor >= self.hosts {
            self.cursor = self.hosts;
            return None;
        }
        let candidate: u128 = self.base + self.cursor;
        self.cursor = self.cursor + 1;
        Some(candidate)
    }

    /// The next address that nobody holds.
    fn take(&mut self, version: u8, allocated: &DashMap<(u8, u128), u64>) -> (r: Option<u128>)
        requires
            old(self).pv().inv(taken_of(addr_map(*allocated), version)),
        ensures
            old(self).pv().gives(taken_of(addr_map(*allocated), version), r, final(self).pv()),
    {
        let ghost taken = taken_of(addr_map(*allocated), version);
        let ghost start = self.pv();
        loop
            invariant
                taken == taken_of(addr_map(*allocated), version),
                start == old(self).pv(),
                start.base + start.hosts <= 0x1_0000_0000_0000_0000_0000_0000_0000_0000,
                start.cursor <= start.hosts,
                self.base == start.base,
                self.hosts == start.hosts,
                start.cursor <= self.cursor <= start.hosts,
                self.free@.finite(),
                forall|x: u128| #[trigger]
                    self.free@.contains(x) ==> start.free.contains(x),
                forall|x: u128| #[trigger]
                    start.free.contains(x) && !self.free@.contains(x) ==> taken.contains(x),
                forall|x: u128, y: u128|
                    start.free.contains(x) && !self.free@.contains(x) && self.free@.contains(y)
                        ==> x < y,
                self.cursor != start.cursor ==> !has_any(self.free@),
                forall|x: u128|
                    start.base + start.next_offset() <= x < start.base + self.cursor
                        ==> #[trigger] taken.contains(x),
            decreases self.hosts - self.cursor, self.free@.len(),
        {
            let ghost before = self.pv();
            match self.next() {
                None => {
                    proof {
                        assert(self.free@ =~= Set::<u128>::empty());
                    }
                    return None;
                },
                Some(a) => {
                    if addr_map_get(allocated, (version, a)).is_none() {
                        proof {
                            assert(!taken.contains(a));
                            if has_any(before.free) {
                                assert(start.free.difference(taken).contains(a));
                                assert(least(start.free.difference(taken), a)) by {
                                    assert forall|x: u128| #[trigger]
                                        start.free.difference(taken).contains(x) implies a <= x by {
                                        assert(before.free.contains(x));
                                    }
                                }
                                assert(self.free@ =~= start.free.filter(|x: u128| x > a));
                            } else {
                                assert(self.free@ =~= Set::<u128>::empty());
                                assert(forall|x: u128| #[trigger]
                                    start.free.contains(x) ==> taken.contains(x));
                            }
                        }
                        return Some(a);
                    }
                    proof {
                        assert(taken.contains(a));
                    }
                },
            }
        }
    }

    fn give_back(&mut self, a: u128)
        ensures
            final(self).pv() == (PoolView {
                free: old(self).pv().free.insert(a),
                ..old(self).pv()
            }),
    {
        self.free.insert(a);
    }
}

/// How many offsets of an IPv4 prefix are considered: the broadcast address
/// is excluded.
pub open spec fn v4_hosts(net: Ipv4Net) -> nat {
    (net.spec_broadcast() - net.spec_network()) as nat
}

/// How many offsets of an IPv6 prefix are considered: its size, at most 2^64.
pub open spec fn v6_hosts(net: Ipv6Net) -> nat {
    if net.prefix_len >= 128 {
        1
    } else if net.prefix_len >= 64 {
        pow2((128 - net.prefix_len) as nat)
    } else {
        pow2(64)
    }
}

proof fn lemma_v4_bounds(net: Ipv4Net)
    ensures
        net.spec_network() <= net.spec_broadcast() < 0x1_0000_0000,
{
    vstd::arithmetic::power2::lemma2_to64();
    lemma_net_bounds(net.addr.bits as nat, 32, net.prefix_len as nat);
}

/// The considered offsets stay inside the prefix.
proof fn lemma_v6_hosts(net: Ipv6Net)
    ensures
        1 <= v6_hosts(net) <= 0x1_0000_0000_0000_0000,
        net.spec_network() + v6_hosts(net) <= net.spec_broadcast() + 1,
        net.spec_broadcast() < 0x1_0000_0000_0000_0000_0000_0000_0000_0000,
        net.prefix_len >= 64 ==> v6_hosts(net) == net_size(128, net.prefix_len as nat),
{
    vstd::arithmetic::power2::lemma2_to64();
    lemma_width_128(net.addr.bits);
    lemma_net_bounds(net.addr.bits as nat, 128, net.prefix_len as nat);
    if net.prefix_len < 64 {
        vstd::arithmetic::power2::lemma_pow2_strictly_increases(
            64,
            (128 - net.prefix_len) as nat,
        );
    } else if 64 < net.prefix_len < 128 {
        vstd::arithmetic::power2::lemma_pow2_strictly_increases(
            (128 - net.prefix_len) as nat,
            64,
        );
        vstd::arithmetic::power2::lemma_pow2_pos((128 - net.prefix_len) as nat);
    }
    lemma_pow2_128();
}

proof fn lemma_pow2_128()
    ensures
        pow2(128) == 0x1_0000_0000_0000_0000_0000_0000_0000_0000,
{
    vstd::arithmetic::power2::lemma2_to64();
    vstd::arithmetic::power2::lemma_pow2_adds(64, 64);
}

fn v6_host_count(net: &Ipv6Net) -> (n: u128)
    ensures
        n == v6_hosts(*net),
{
    proof {
        lemma_v6_hosts(*net);
        vstd::arithmetic::power2::lemma2_to64();
    }
    if net.prefix_len >= 64 {
        net.broadcast().bits - net.network().bits + 1
    } else {
        0x1_0000_0000_0000_0000
    }
}

/// An address of the pool that a session may hold: inside the prefix, and
/// neither the gateway nor, for IPv4, the network or broadcast address.
pub open spec fn assignable_v4(net: Ipv4Net, x: nat) -> bool {
    net.spec_network() + 2 <= x < net.spec_broadcast()
}

/// An address of the pool that a session may hold: inside the prefix, and not
/// the gateway.
pub open spec fn assignable_v6(net: Ipv6Net, x: nat) -> bool {
    net.spec_network() <= x <= net.spec_broadcast() && x != net.spec_network() + 1
}

/// Manages the pools of assignable client addresses.
#[derive(Debug)]
pub struct AddressPool {
    v4_net: Ipv4Net,
    v6_net: Option<Ipv6Net>,
    v4: HostPool,
    v6: Option<HostPool>,
    /// Session → allocated addresses, for release on teardown.
    allocations: DashMap<u64, Vec<IpAddr>>,
    /// Reverse index guarding against double allocation of specific requests.
    allocated: DashMap<(u8, u128), u64>,
}

/// The address that an ADDRESS_REQUEST entry asks for by name. "Any address"
/// markers (0.0.0.0 / ::) and requests for more than one address name none.
pub open spec fn specific(request: RequestedAddress) -> Option<IpAddr> {
    match request.ip_address {
        IpAddr::V4(a) => if a.bits != 0 && request.prefix_length == 32 {
            Some(request.ip_address)
        } else {
            None
        },
        IpAddr::V6(a) => if a.bits != 0 && request.prefix_length == 128 {
            Some(request.ip_address)
        } else {
            None
        },
    }
}

impl AddressPool {
    pub closed spec fn net4(self) -> Ipv4Net {
        self.v4_net
    }

    pub closed spec fn net6(self) -> Option<Ipv6Net> {
        self.v6_net
    }

    pub closed spec fn pool4(self) -> PoolView {
        self.v4.pv()
    }

    pub closed spec fn pool6(self) -> Option<PoolView> {
        match self.v6 {
            Some(p) => Some(p.pv()),
            None => None,
        }
    }

    /// Who holds which address.
    pub closed spec fn owners(self) -> Map<(u8, u128), u64> {
        addr_map(self.allocated)
    }

    /// What each session holds, in the order of allocation.
    pub closed spec fn holdings(self) -> Map<u64, Seq<IpAddr>> {
        held_map(self.allocations)
    }

    /// A session may hold the address.
    pub open spec fn assignable(self, version: u8, x: u128) -> bool {
        if version == 4 {
            assignable_v4(self.net4(), x as nat)
        } else {
            version == 6 && self.net6() is Some && assignable_v6(self.net6()->0, x as nat)
        }
    }

    /// A session may have the address now.
    pub open spec fn available(self, addr: IpAddr) -> bool {
        self.assignable(key_of(addr).0, key_of(addr).1) && !self.owners().dom().contains(
            key_of(addr),
        )
    }

    /// Both prefixes, their pools, and the two indexes agree.
    pub open spec fn wf(self) -> bool {
        &&& self.pool4().base == self.net4().spec_network()
        &&& self.pool4().hosts == v4_hosts(self.net4())
        &&& self.pool4().inv(taken_of(self.owners(), 4))
        &&& forall|x: u128| #[trigger]
            self.pool4().free.contains(x) ==> assignable_v4(self.net4(), x as nat)
        &&& self.net6() is Some <==> self.pool6() is Some
        &&& self.pool6() matches Some(p) ==> {
            &&& p.base == self.net6()->0.spec_network()
            &&& p.hosts == v6_hosts(self.net6()->0)
            &&& p.inv(taken_of(self.owners(), 6))
            &&& forall|x: u128| #[trigger]
                p.free.contains(x) ==> assignable_v6(self.net6()->0, x as nat)
        }
        &&& forall|k: (u8, u128)| #[trigger]
            self.owners().dom().contains(k) ==> self.assignable(k.0, k.1)
        &&& forall|s: u64, i: int|
            self.holdings().dom().contains(s) && 0 <= i < self.holdings()[s].len() ==> {
                let k = key_of(#[trigger] self.holdings()[s][i]);
                self.owners().dom().contains(k) && self.owners()[k] == s
            }
        &&& forall|k: (u8, u128)| #[trigger]
            self.owners().dom().contains(k) ==> self.lists(k)
    }

    /// The owner of an address has it on its list.
    pub open spec fn lists(self, k: (u8, u128)) -> bool {
        let s = self.owners()[k];
        self.holdings().dom().contains(s) && exists|i: int|
            0 <= i < self.holdings()[s].len() && key_of(#[trigger] self.holdings()[s][i]) == k
    }

    /// The prefixes are those of `other`.
    pub open spec fn same_nets(self, other: AddressPool) -> bool {
        self.net4() == other.net4() && self.net6() == other.net6()
    }

    /// The session got one more address since `before`, and nothing else was
    /// handed out or given back.
    pub open spec fn handed_out(self, before: AddressPool, session: SessionId, addr: IpAddr) -> bool {
        &&& self.owners() == before.owners().insert(key_of(addr), session.0)
        &&& self.holdings() == before.holdings().insert(
            session.0,
            (if before.holdings().dom().contains(session.0) {
                before.holdings()[session.0]
            } else {
                Seq::empty()
            }).push(addr),
        )
    }

    /// The session holds nothing any more, and what it held since `before` is
    /// free again.
    pub open spec fn released(self, before: AddressPool, session: SessionId) -> bool {
        &&& self.same_nets(before)
        &&& self.owners() == without_session(before.owners(), session.0)
        &&& self.holdings() == before.holdings().remove(session.0)
        &&& self.pool4() == (PoolView {
            free: before.pool4().free.union(owned(before.owners(), 4, session.0)),
            ..before.pool4()
        })
        &&& self.pool6() == (match before.pool6() {
            Some(p) => Some(
                PoolView { free: p.free.union(owned(before.owners(), 6, session.0)), ..p },
            ),
            None => None,
        })
    }

    /// The indexes and pools are those of `other`.
    pub open spec fn same_state(self, other: AddressPool) -> bool {
        &&& self.pool4() == other.pool4()
        &&& self.pool6() == other.pool6()
        &&& self.owners() == other.owners()
        &&& self.holdings() == other.holdings()
    }

    /// What handing out the next IPv4 address under `request_id` makes of
    /// `before`.
    pub open spec fn after_v4(
        self,
        before: AddressPool,
        session: SessionId,
        request_id: u64,
        r: Option<AssignedAddress>,
    ) -> bool {
        &&& self.pool6() == before.pool6()
        &&& match r {
            Some(a) => {
                &&& a.request_id == request_id
                &&& a.ip_version == 4
                &&& a.prefix_length == 32
                &&& a.ip_address is V4
                &&& before.pool4().gives(
                    taken_of(before.owners(), 4),
                    Some(key_of(a.ip_address).1),
                    self.pool4(),
                )
                &&& !before.owners().dom().contains(key_of(a.ip_address))
                &&& self.handed_out(before, session, a.ip_address)
            },
            None => {
                &&& before.pool4().gives(taken_of(before.owners(), 4), None, self.pool4())
                &&& self.owners() == before.owners()
                &&& self.holdings() == before.holdings()
            },
        }
    }

    /// What handing out the next IPv6 address under `request_id` makes of
    /// `before`. Without an IPv6 pool there is none.
    pub open spec fn after_v6(
        self,
        before: AddressPool,
        session: SessionId,
        request_id: u64,
        r: Option<AssignedAddress>,
    ) -> bool {
        &&& self.pool4() == before.pool4()
        &&& match before.pool6() {
            None => r is None && self.same_state(before),
            Some(pool) => {
                &&& self.pool6() is Some
                &&& match r {
                    Some(a) => {
                        &&& a.request_id == request_id
                        &&& a.ip_version == 6
                        &&& a.prefix_length == 128
                        &&& a.ip_address is V6
                        &&& pool.gives(
                            taken_of(before.owners(), 6),
                            Some(key_of(a.ip_address).1),
                            self.pool6()->0,
                        )
                        &&& !before.owners().dom().contains(key_of(a.ip_address))
                        &&& self.handed_out(before, session, a.ip_address)
                    },
                    None => {
                        &&& pool.gives(taken_of(before.owners(), 6), None, self.pool6()->0)
                        &&& self.owners() == before.owners()
                        &&& self.holdings() == before.holdings()
                    },
                }
            },
        }
    }

    /// What serving a request makes of `before`: the address it names if that
    /// is available, else the next one of its version.
    pub open spec fn served(
        self,
        before: AddressPool,
        session: SessionId,
        request: RequestedAddress,
        r: Option<AssignedAddress>,
    ) -> bool {
        if specific(request) is Some && before.available(request.ip_address) {
            &&& r == Some(
                AssignedAddress {
                    request_id: request.request_id,
                    ip_version: request.ip_version,
                    ip_address: request.ip_address,
                    prefix_length: request.prefix_length,
                },
            )
            &&& self.pool4() == before.pool4()
            &&& self.pool6() == before.pool6()
            &&& self.handed_out(before, session, request.ip_address)
        } else if request.ip_version == 4 {
            self.after_v4(before, session, request.request_id, r)
        } else if request.ip_version == 6 {
            self.after_v6(before, session, request.request_id, r)
        } else {
            r is None && self.same_state(before)
        }
    }

    pub fn new(ipv4: Ipv4Net, ipv6: Option<Ipv6Net>) -> (p: Self)
        ensures
            p.wf(),
            p.net4() == ipv4,
            p.net6() == ipv6,
            p.owners() == no_addrs(),
            p.holdings() == nothing_held(),
            p.pool4() == PoolView::fresh(ipv4.spec_network(), v4_hosts(ipv4)),
            ipv6 matches Some(net) ==> p.pool6() == Some(
                PoolView::fresh(net.spec_network(), v6_hosts(net)),
            ),
    {
        let first: u128 = ipv4.network().bits as u128;
        let hosts: u128 = ipv4.broadcast().bits as u128 - first;
        let v6 = match ipv6 {
            Some(net) => {
                proof {
                    lemma_v6_hosts(net);
                }
                let hosts6 = v6_host_count(&net);
                Some(HostPool::new(net.network().bits, hosts6))
            },
            None => None,
        };
        AddressPool {
            v4_net: ipv4,
            v6_net: ipv6,
            v4: HostPool::new(first, hosts),
            v6,
            allocations: held_map_new(),
            allocated: addr_map_new(),
        }
    }

    /// The proxy-side gateway address (first host of the IPv4 pool).
    pub fn ipv4_gateway(&self) -> (g: (Ipv4Addr, u8))
        requires
            self.net4().spec_network() < u32::MAX,
        ensures
            g.0.bits == self.net4().spec_network() + 1,
            g.1 == self.net4().prefix_len,
    {
        (Ipv4Addr { bits: self.v4_net.network().bits + 1 }, self.v4_net.prefix_len)
    }

    /// The proxy-side IPv6 gateway (first host of the IPv6 pool), if any.
    pub fn ipv6_gateway(&self) -> (g: Option<(Ipv6Addr, u8)>)
        requires
            self.net6() matches Some(net) ==> net.spec_network() < u128::MAX,
        ensures
            match self.net6() {
                Some(net) => g matches Some(a) && a.0.bits == net.spec_network() + 1 && a.1
                    == net.prefix_len,
                None => g is None,
            },
    {
        match self.v6_net {
            Some(net) => Some((Ipv6Addr { bits: net.network().bits + 1 }, net.prefix_len)),
            None => None,
        }
    }

    /// The configured pool subnets (used to guard client route installs).
    pub fn pool_nets(&self) -> (nets: Vec<IpNet>)
        ensures
            nets@ == match self.net6() {
                Some(net) => seq![IpNet::V4(self.net4()), IpNet::V6(net)],
                None => seq![IpNet::V4(self.net4())],
            },
    {
        let mut nets: Vec<IpNet> = Vec::new();
        nets.push(IpNet::V4(self.v4_net));
        match self.v6_net {
            Some(net) => {
                nets.push(IpNet::V6(net));
            },
            None => {},
        }
        nets
    }

    /// Allocate the next available IPv4 address for a session (unprompted
    /// assignment, request_id = 0).
    pub fn allocate_v4(&mut self, session: SessionId) -> (r: Option<AssignedAddress>)
        requires
            old(self).wf(),
        ensures
            final(self).wf(),
            final(self).same_nets(*old(self)),
            final(self).after_v4(*old(self), session, 0, r),
    {
        proof {
            lemma_v4_bounds(self.v4_net);
        }
        let ghost before = *self;
        match self.v4.take(4, &self.allocated) {
            None => {
                proof {
                    self.lemma_still_wf(before);
                }
                None
            },
            Some(bits) => {
                proof {
                    assert(assignable_v4(self.v4_net, bits as nat));
                }
                let ghost mid = *self;
                let ip = IpAddr::V4(Ipv4Addr { bits: bits as u32 });
                self.record(session, ip);
                proof {
                    assert(key_of(ip) == (4u8, bits));
                    self.lemma_recorded_wf(before, session, ip);
                }
                Some(
                    AssignedAddress {
                        request_id: 0,
                        ip_version: 4,
                        ip_address: ip,
                        prefix_length: 32,
                    },
                )
            },
        }
    }

    /// Allocate the next available IPv6 address, if a pool is configured.
    pub fn allocate_v6(&mut self, session: SessionId) -> (r: Option<AssignedAddress>)
        requires
            old(self).wf(),
        ensures
            final(self).wf(),
            final(self).same_nets(*old(self)),
            final(self).after_v6(*old(self), session, 0, r),
    {
        let ghost before = *self;
        let mut pool = match self.v6.take() {
            None => {
                return None;
            },
            Some(pool) => pool,
        };
        proof {
            lemma_v6_hosts(self.v6_net->0);
        }
        let taken = pool.take(6, &self.allocated);
        self.v6 = Some(pool);
        match taken {
            None => {
                proof {
                    self.lemma_still_wf(before);
                }
                None
            },
            Some(bits) => {
                proof {
                    assert(assignable_v6(self.v6_net->0, bits as nat));
                }
                let ip = IpAddr::V6(Ipv6Addr { bits });
                self.record(session, ip);
                proof {
                    assert(key_of(ip) == (6u8, bits));
                    self.lemma_recorded_wf(before, session, ip);
                }
                Some(
                    AssignedAddress {
                        request_id: 0,
                        ip_version: 6,
                        ip_address: ip,
                        prefix_length: 128,
                    },
                )
            },
        }
    }

    /// Serve an ADDRESS_REQUEST entry (RFC 9484 §4.7.2): honor a specific
    /// free address when possible, otherwise fall back to pool order.
    /// Returns `None` when nothing can be allocated for the request.
    pub fn allocate_for_request(&mut self, session: SessionId, request: &RequestedAddress) -> (r:
        Option<AssignedAddress>)
        requires
            old(self).wf(),
        ensures
            final(self).wf(),
            final(self).same_nets(*old(self)),
            final(self).served(*old(self), session, *request, r),
    {
        let named = match request.ip_address {
            IpAddr::V4(a) => a.bits != 0 && request.prefix_length == 32,
            IpAddr::V6(a) => a.bits != 0 && request.prefix_length == 128,
        };
        if named && self.try_allocate_specific(session, request.ip_address) {
            return Some(
                AssignedAddress {
                    request_id: request.request_id,
                    ip_version: request.ip_version,
                    ip_address: request.ip_address,
                    prefix_length: request.prefix_length,
                },
            );
        }
        let assigned = if request.ip_version == 4 {
            self.allocate_v4(session)
        } else if request.ip_version == 6 {
            self.allocate_v6(session)
        } else {
            None
        };
        match assigned {
            Some(a) => Some(
                AssignedAddress {
                    request_id: request.request_id,
                    ip_version: a.ip_version,
                    ip_address: a.ip_address,
                    prefix_length: a.prefix_length,
                },
            ),
            None => None,
        }
    }

    fn try_allocate_specific(&mut self, session: SessionId, addr: IpAddr) -> (ok: bool)
        requires
            old(self).wf(),
        ensures
            final(self).wf(),
            final(self).same_nets(*old(self)),
            ok == old(self).available(addr),
            ok ==> final(self).pool4() == old(self).pool4() && final(self).pool6() == old(
                self,
            ).pool6() && final(self).handed_out(*old(self), session, addr),
            !ok ==> final(self).same_state(*old(self)),
    {
        // The network address, the gateway and the broadcast address are
        // never handed out.
        let in_pool = match addr {
            IpAddr::V4(a) => {
                let first: u32 = self.v4_net.network().bits;
                self.v4_net.contains(&a) && a.bits - first >= 2 && a.bits
                    != self.v4_net.broadcast().bits
            },
            IpAddr::V6(a) => match self.v6_net {
                Some(net) => net.contains(&a) && a.bits - net.network().bits != 1,
                None => false,
            },
        };
        if !in_pool {
            return false;
        }
        // Reject anything already handed out.
        if addr_map_get(&self.allocated, addr_key(&addr)).is_some() {
            return false;
        }
        let ghost before = *self;
        self.record(session, addr);
        proof {
            self.lemma_recorded_wf(before, session, addr);
        }
        true
    }

    fn record(&mut self, session: SessionId, addr: IpAddr)
        ensures
            final(self).same_nets(*old(self)),
            final(self).pool4() == old(self).pool4(),
            final(self).pool6() == old(self).pool6(),
            final(self).handed_out(*old(self), session, addr),
    {
        addr_map_insert(&mut self.allocated, addr_key(&addr), session.0);
        let mut addrs = match held_map_remove(&mut self.allocations, session.0) {
            Some(addrs) => addrs,
            None => Vec::new(),
        };
        addrs.push(addr);
        held_map_insert(&mut self.allocations, session.0, addrs);
        proof {
            let h = held_map(old(self).allocations);
            assert(held_map(self.allocations) =~= h.insert(
                session.0,
                (if h.dom().contains(session.0) {
                    h[session.0]
                } else {
                    Seq::empty()
                }).push(addr),
            ));
        }
    }

    proof fn lemma_still_wf(self, before: AddressPool)
        requires
            before.wf(),
            self.same_nets(before),
            self.owners() == before.owners(),
            self.holdings() == before.holdings(),
            self.pool4() == before.pool4() || before.pool4().gives(
                taken_of(before.owners(), 4),
                None,
                self.pool4(),
            ),
            self.pool6() == before.pool6() || (before.pool6() is Some && self.pool6() is Some
                && before.pool6()->0.gives(
                taken_of(before.owners(), 6),
                None,
                self.pool6()->0,
            )),
        ensures
            self.wf(),
    {
    }

    proof fn lemma_recorded_wf(self, before: AddressPool, session: SessionId, addr: IpAddr)
        requires
            before.wf(),
            self.same_nets(before),
            before.available(addr),
            self.handed_out(before, session, addr),
            self.pool4() == before.pool4() || (addr is V4 && before.pool4().gives(
                taken_of(before.owners(), 4),
                Some(key_of(addr).1),
                self.pool4(),
            )),
            self.pool6() == before.pool6() || (addr is V6 && before.pool6() is Some
                && self.pool6() is Some && before.pool6()->0.gives(
                taken_of(before.owners(), 6),
                Some(key_of(addr).1),
                self.pool6()->0,
            )),
        ensures
            self.wf(),
    {
        let s = session.0;
        let key = key_of(addr);
        let old_list = if before.holdings().dom().contains(s) {
            before.holdings()[s]
        } else {
            Seq::empty()
        };
        assert(self.holdings()[s] == old_list.push(addr));
        assert forall|k: (u8, u128)| #[trigger]
            self.owners().dom().contains(k) implies self.lists(k) by {
            if k == key {
                assert(self.owners()[k] == s);
                assert(key_of(self.holdings()[s][old_list.len() as int]) == k);
                assert(self.holdings().dom().contains(s));
            } else {
                assert(before.owners().dom().contains(k));
                assert(before.lists(k));
                let o = before.owners()[k];
                let i = choose|i: int|
                    0 <= i < before.holdings()[o].len() && key_of(
                        #[trigger] before.holdings()[o][i],
                    ) == k;
                assert(self.owners()[k] == o);
                assert(self.holdings().dom().contains(o));
                assert(i < self.holdings()[o].len());
                assert(key_of(self.holdings()[o][i]) == k);
            }
        }
        assert forall|t: u64, i: int|
            self.holdings().dom().contains(t) && 0 <= i < self.holdings()[t].len() implies {
            let k = key_of(#[trigger] self.holdings()[t][i]);
            self.owners().dom().contains(k) && self.owners()[k] == t
        } by {
            if t == s && i == old_list.len() {
            } else {
                assert(before.holdings().dom().contains(t));
                assert(self.holdings()[t][i] == before.holdings()[t][i]);
                let k = key_of(before.holdings()[t][i]);
                assert(before.owners().dom().contains(k));
                assert(key != k);
            }
        }
        let t4 = taken_of(before.owners(), 4);
        let t6 = taken_of(before.owners(), 6);
        let u4 = taken_of(self.owners(), 4);
        let u6 = taken_of(self.owners(), 6);
        assert(forall|a: u128| #[trigger] t4.contains(a) ==> u4.contains(a));
        assert(forall|a: u128| #[trigger] t6.contains(a) ==> u6.contains(a));
        if self.pool4() != before.pool4() {
            lemma_gives_inv(before.pool4(), t4, Some(key.1), self.pool4(), u4);
        } else {
            lemma_inv_grows(before.pool4(), t4, u4);
        }
        if self.pool6() != before.pool6() {
            lemma_gives_inv(before.pool6()->0, t6, Some(key.1), self.pool6()->0, u6);
        } else if self.pool6() is Some {
            lemma_inv_grows(before.pool6()->0, t6, u6);
        }
    }

    /// Release all addresses held by a session.
    pub fn release(&mut self, session: SessionId)
        requires
            old(self).wf(),
        ensures
            final(self).wf(),
            final(self).released(*old(self), session),
    {
        let ghost before = *self;
        let addrs = match held_map_remove(&mut self.allocations, session.0) {
            Some(addrs) => addrs,
            None => {
                proof {
                    before.lemma_unknown_owns_nothing(session);
                    assert(self.holdings() =~= before.holdings());
                    assert(self.owners() =~= without_session(before.owners(), session.0));
                    assert(before.pool4().free =~= before.pool4().free.union(
                        owned(before.owners(), 4, session.0),
                    ));
                    if before.pool6() is Some {
                        assert(before.pool6()->0.free =~= before.pool6()->0.free.union(
                            owned(before.owners(), 6, session.0),
                        ));
                    }
                }
                return;
            },
        };
        let mut i: usize = 0;
        proof {
            let none = addrs@.take(0);
            assert(forall|k: (u8, u128)| !(#[trigger] has_key(none, k)));
            assert(self.owners() =~= without_keys(before.owners(), none));
            assert(numbers(none, 4) =~= Set::<u128>::empty());
            assert(numbers(none, 6) =~= Set::<u128>::empty());
            assert(before.pool4().free.union(numbers(none, 4)) =~= before.pool4().free);
            if before.pool6() is Some {
                assert(before.pool6()->0.free.union(numbers(none, 6)) =~= before.pool6()->0.free);
            }
        }
        while i < addrs.len()
            invariant
                i <= addrs@.len(),
                before.wf(),
                before == *old(self),
                before.holdings().dom().contains(session.0),
                before.holdings()[session.0] == addrs@,
                self.same_nets(before),
                self.holdings() == before.holdings().remove(session.0),
                self.owners() == without_keys(before.owners(), addrs@.take(i as int)),
                numbers(addrs@.take(i as int), 4).finite(),
                numbers(addrs@.take(i as int), 6).finite(),
                self.pool4() == (PoolView {
                    free: before.pool4().free.union(numbers(addrs@.take(i as int), 4)),
                    ..before.pool4()
                }),
                self.pool6() == (match before.pool6() {
                    Some(p) => Some(
                        PoolView { free: p.free.union(numbers(addrs@.take(i as int), 6)), ..p },
                    ),
                    None => None,
                }),
            decreases addrs@.len() - i,
        {
            let addr = addrs[i];
            let ghost t = addrs@.take(i as int);
            proof {
                assert(addrs@.take(i + 1) =~= t.push(addr));
                lemma_keys_push(before.owners(), t, addr);
            }
            addr_map_remove(&mut self.allocated, addr_key(&addr));
            match addr {
                IpAddr::V4(a) => {
                    self.v4.give_back(a.bits as u128);
                    proof {
                        assert(self.v4.pv().free =~= before.pool4().free.union(
                            numbers(t.push(addr), 4),
                        ));
                        if before.pool6() is Some {
                            assert(before.pool6()->0.free.union(numbers(t, 6))
                                =~= before.pool6()->0.free.union(numbers(t.push(addr), 6)));
                        }
                    }
                },
                IpAddr::V6(a) => {
                    let ghost p6 = self.pool6();
                    match self.v6.take() {
                        Some(mut pool) => {
                            pool.give_back(a.bits);
                            self.v6 = Some(pool);
                            proof {
                                assert(self.pool6()->0.free =~= before.pool6()->0.free.union(
                                    numbers(t.push(addr), 6),
                                ));
                            }
                        },
                        None => {},
                    }
                    proof {
                        assert(before.pool4().free.union(numbers(t, 4))
                            =~= before.pool4().free.union(numbers(t.push(addr), 4)));
                    }
                },
            }
            i = i + 1;
        }
        proof {
            assert(addrs@.take(addrs@.len() as int) =~= addrs@);
            before.lemma_list_is_owned(session);
            self.lemma_released_wf(before, session);
        }
    }

    /// A session without a list owns nothing.
    proof fn lemma_unknown_owns_nothing(self, session: SessionId)
        requires
            self.wf(),
            !self.holdings().dom().contains(session.0),
        ensures
            forall|k: (u8, u128)| #[trigger]
                self.owners().dom().contains(k) ==> self.owners()[k]
                    != session.0,
    {
        assert forall|k: (u8, u128)| #[trigger]
            self.owners().dom().contains(k) implies self.owners()[k]
            != session.0 by {
            assert(self.lists(k));
        }
    }

    /// The list of a session and the index of owners say the same.
    proof fn lemma_list_is_owned(self, session: SessionId)
        requires
            self.wf(),
            self.holdings().dom().contains(session.0),
        ensures
            ({
                let list = self.holdings()[session.0];
                &&& without_keys(self.owners(), list) == without_session(self.owners(), session.0)
                &&& numbers(list, 4) == owned(self.owners(), 4, session.0)
                &&& numbers(list, 6) == owned(self.owners(), 6, session.0)
            }),
    {
        let list = self.holdings()[session.0];
        assert forall|k: (u8, u128)|
            (#[trigger] self.owners().dom().contains(k) && self.owners()[k]
                == session.0) == has_key(list, k) by {
            if self.owners().dom().contains(k) && self.owners()[k]
                == session.0 {
                assert(self.lists(k));
            }
        }
        assert(without_keys(self.owners(), list) =~= without_session(self.owners(), session.0));
        assert(numbers(list, 4) =~= owned(self.owners(), 4, session.0));
        assert(numbers(list, 6) =~= owned(self.owners(), 6, session.0));
    }

    proof fn lemma_released_wf(self, before: AddressPool, session: SessionId)
        requires
            before.wf(),
            self.same_nets(before),
            self.owners() == without_session(before.owners(), session.0),
            self.holdings() == before.holdings().remove(session.0),
            self.pool4() == (PoolView {
                free: before.pool4().free.union(owned(before.owners(), 4, session.0)),
                ..before.pool4()
            }),
            self.pool6() == (match before.pool6() {
                Some(p) => Some(
                    PoolView { free: p.free.union(owned(before.owners(), 6, session.0)), ..p },
                ),
                None => None,
            }),
            owned(before.owners(), 4, session.0).finite(),
            owned(before.owners(), 6, session.0).finite(),
        ensures
            self.wf(),
    {
        let s = session.0;
        assert forall|k: (u8, u128)| #[trigger]
            self.owners().dom().contains(k) implies self.lists(k) by {
            assert(before.owners().dom().contains(k));
            assert(before.lists(k));
            let o = before.owners()[k];
            let i = choose|i: int|
                0 <= i < before.holdings()[o].len() && key_of(#[trigger] before.holdings()[o][i])
                    == k;
            assert(self.holdings()[o][i] == before.holdings()[o][i]);
        }
        assert forall|t: u64, i: int|
            self.holdings().dom().contains(t) && 0 <= i < self.holdings()[t].len() implies {
            let key = key_of(#[trigger] self.holdings()[t][i]);
            self.owners().dom().contains(key) && self.owners()[key] == t
        } by {
            assert(self.holdings()[t][i] == before.holdings()[t][i]);
            let key = key_of(before.holdings()[t][i]);
            assert(before.owners().dom().contains(key));
        }
        lemma_freed_inv(before.pool4(), before.owners(), 4, s);
        if before.pool6() is Some {
            lemma_freed_inv(before.pool6()->0, before.owners(), 6, s);
        }
    }
}

/// The addresses of one version that a session holds.
pub open spec fn owned(owners: Map<(u8, u128), u64>, version: u8, session: u64) -> Set<u128> {
    Set::new(
        |x: u128| owners.dom().contains((version, x)) && owners[(version, x)] == session,
    )
}

/// An address of the list has the key.
spec fn has_key(list: Seq<IpAddr>, k: (u8, u128)) -> bool {
    exists|i: int| 0 <= i < list.len() && key_of(#[trigger] list[i]) == k
}

/// The owners of the addresses outside the list.
spec fn without_keys(owners: Map<(u8, u128), u64>, list: Seq<IpAddr>) -> Map<(u8, u128), u64> {
    owners.restrict(Set::new(|k: (u8, u128)| owners.dom().contains(k) && !has_key(list, k)))
}

/// The numbers of the addresses of one version in the list.
spec fn numbers(list: Seq<IpAddr>, version: u8) -> Set<u128> {
    Set::new(|x: u128| has_key(list, (version, x)))
}

proof fn lemma_has_key_push(list: Seq<IpAddr>, addr: IpAddr, k: (u8, u128))
    ensures
        has_key(list.push(addr), k) == (has_key(list, k) || k == key_of(addr)),
{
    let more = list.push(addr);
    if has_key(list, k) {
        let i = choose|i: int| 0 <= i < list.len() && key_of(#[trigger] list[i]) == k;
        assert(key_of(more[i]) == k);
    }
    assert(more[list.len() as int] == addr);
    if has_key(more, k) && k != key_of(addr) {
        let i = choose|i: int| 0 <= i < more.len() && key_of(#[trigger] more[i]) == k;
        assert(key_of(list[i]) == k);
    }
}

proof fn lemma_keys_push(owners: Map<(u8, u128), u64>, list: Seq<IpAddr>, addr: IpAddr)
    ensures
        without_keys(owners, list.push(addr)) == without_keys(owners, list).remove(key_of(addr)),
        numbers(list.push(addr), 4) == if addr is V4 {
            numbers(list, 4).insert(key_of(addr).1)
        } else {
            numbers(list, 4)
        },
        numbers(list.push(addr), 6) == if addr is V6 {
            numbers(list, 6).insert(key_of(addr).1)
        } else {
            numbers(list, 6)
        },
{
    assert forall|k: (u8, u128)| #[trigger] has_key(list.push(addr), k) == (has_key(list, k) || k
        == key_of(addr)) by {
        lemma_has_key_push(list, addr, k);
    }
    assert(without_keys(owners, list.push(addr)) =~= without_keys(owners, list).remove(
        key_of(addr),
    ));
    assert(numbers(list.push(addr), 4) =~= if addr is V4 {
        numbers(list, 4).insert(key_of(addr).1)
    } else {
        numbers(list, 4)
    });
    assert(numbers(list.push(addr), 6) =~= if addr is V6 {
        numbers(list, 6).insert(key_of(addr).1)
    } else {
        numbers(list, 6)
    });
}

/// Giving a session's addresses back keeps a pool's invariant.
proof fn lemma_freed_inv(p: PoolView, owners: Map<(u8, u128), u64>, version: u8, session: u64)
    requires
        p.inv(taken_of(owners, version)),
        owned(owners, version, session).finite(),
    ensures
        (PoolView { free: p.free.union(owned(owners, version, session)), ..p }).inv(
            taken_of(without_session(owners, session), version),
        ),
{
    let after = taken_of(without_session(owners, session), version);
    let free = p.free.union(owned(owners, version, session));
    assert forall|a: u128| p.base + 2 <= a < p.base + p.cursor implies #[trigger] after.contains(a)
        || free.contains(a) by {
        assert(taken_of(owners, version).contains(a) || p.free.contains(a));
    }
}

/// No address is held by two sessions.
pub proof fn lemma_no_shared_address(p: AddressPool, s: u64, i: int, t: u64, j: int)
    requires
        p.wf(),
        p.holdings().dom().contains(s),
        p.holdings().dom().contains(t),
        0 <= i < p.holdings()[s].len(),
        0 <= j < p.holdings()[t].len(),
        s != t,
    ensures
        p.holdings()[s][i] != p.holdings()[t][j],
{
}

/// The gateway of either pool, and the network and broadcast address of the
/// IPv4 pool, are never held by a session.
pub proof fn lemma_reserved_addresses(p: AddressPool, x: u128)
    requires
        p.wf(),
    ensures
        x == p.net4().spec_network() || x == p.net4().spec_network() + 1 || x
            == p.net4().spec_broadcast() ==> !p.owners().dom().contains((4u8, x)),
        p.net6() matches Some(net) ==> (x == net.spec_network() + 1
            ==> !p.owners().dom().contains((6u8, x))),
{
}

/// The IPv4 pool is exhausted exactly when every assignable address is held.
pub proof fn lemma_v4_exhausted(
    before: AddressPool,
    after: AddressPool,
    session: SessionId,
    r: Option<AssignedAddress>,
)
    requires
        before.wf(),
        after.after_v4(before, session, 0, r),
    ensures
        r is None <==> forall|x: u128|
            assignable_v4(before.net4(), x as nat) ==> #[trigger] before.owners().dom().contains(
                (4u8, x),
            ),
{
    let taken = taken_of(before.owners(), 4);
    lemma_v4_bounds(before.net4());
    match r {
        None => {
            assert forall|x: u128| assignable_v4(before.net4(), x as nat) implies #[trigger]
                before.owners().dom().contains((4u8, x)) by {
                assert(taken.contains(x));
            }
        },
        Some(a) => {
            let x = key_of(a.ip_address).1;
            assert(key_of(a.ip_address) == (4u8, x));
            if has_any(before.pool4().free.difference(taken)) {
                assert(before.pool4().free.contains(x));
            }
            assert(assignable_v4(before.net4(), x as nat));
        },
    }
}

/// An IPv4 address that a session gives back can be handed out again.
pub proof fn lemma_released_is_reusable(
    before: AddressPool,
    released: AddressPool,
    after: AddressPool,
    session: SessionId,
    x: u128,
    other: SessionId,
    r: Option<AssignedAddress>,
)
    requires
        before.wf(),
        before.owners().dom().contains((4u8, x)),
        before.owners()[(4u8, x)] == session.0,
        released.wf(),
        released.released(before, session),
        after.after_v4(released, other, 0, r),
    ensures
        r is Some,
{
    lemma_v4_exhausted(released, after, other, r);
    assert(before.assignable(4, x));
    assert(!released.owners().dom().contains((4u8, x)));
}

/// What a request brings about, whatever address it asks for. An address that
/// comes back was free, is one that the pool may hand out, is of the family
/// asked for unless it is the very address asked for, and is from then on the
/// session's; every other address and session is as before. The address asked
/// for is given whenever it may be. None comes back only where every address of
/// the family is held (or, for IPv6, every one among those that are tried), and
/// then nothing changes hands.
pub proof fn lemma_request_served(
    before: AddressPool,
    after: AddressPool,
    session: SessionId,
    request: RequestedAddress,
    r: Option<AssignedAddress>,
    k: (u8, u128),
    s: u64,
)
    requires
        before.wf(),
        after.served(before, session, request, r),
    ensures
        match r {
            Some(a) => {
                let mine = (a.ip_address.spec_version(), a.ip_address.spec_value() as u128);
                &&& a.request_id == request.request_id
                &&& a.prefix_length == if a.ip_address is V4 {
                    32int
                } else {
                    128
                }
                &&& !before.owners().dom().contains(mine)
                &&& match a.ip_address {
                    IpAddr::V4(v4) => before.net4().spec_network() + 2 <= v4.bits
                        < before.net4().spec_broadcast(),
                    IpAddr::V6(v6) => before.net6() matches Some(net) && net.spec_network()
                        <= v6.bits <= net.spec_broadcast() && v6.bits != net.spec_network() + 1,
                }
                &&& after.owners().dom().contains(k) <==> before.owners().dom().contains(k) || k
                    == mine
                &&& after.owners().dom().contains(k) ==> after.owners()[k] == if k == mine {
                    session.0
                } else {
                    before.owners()[k]
                }
                &&& after.holdings().dom().contains(session.0)
                &&& after.holdings()[session.0].len() > 0
                &&& after.holdings()[session.0].last() == a.ip_address
                &&& before.holdings().dom().contains(session.0) ==> after.holdings()[session.0]
                    == before.holdings()[session.0].push(a.ip_address)
                &&& s != session.0 ==> (after.holdings().dom().contains(s)
                    <==> before.holdings().dom().contains(s))
                &&& s != session.0 && before.holdings().dom().contains(s) ==> after.holdings()[s]
                    == before.holdings()[s]
            },
            None => {
                &&& after.owners() == before.owners()
                &&& after.holdings() == before.holdings()
                &&& request.ip_version == 4 && k.0 == 4 && before.net4().spec_network() + 2 <= k.1
                    < before.net4().spec_broadcast() ==> before.owners().dom().contains(k)
                &&& request.ip_version == 6 ==> (before.net6() matches Some(net) ==> (k.0 == 6
                    && net.spec_network() + 2 <= k.1 <= net.spec_broadcast() && k.1
                    < net.spec_network() + 0x1_0000_0000_0000_0000
                    ==> before.owners().dom().contains(k)))
            },
        },
        ({
            let asked = (
                request.ip_address.spec_version(),
                request.ip_address.spec_value() as u128,
            );
            let host = match request.ip_address {
                IpAddr::V4(a) => a.bits != 0 && request.prefix_length == 32
                    && before.net4().spec_network() + 2 <= a.bits
                    < before.net4().spec_broadcast(),
                IpAddr::V6(a) => a.bits != 0 && request.prefix_length == 128 && (
                before.net6() matches Some(net) && net.spec_network() <= a.bits
                    <= net.spec_broadcast() && a.bits != net.spec_network() + 1),
            };
            host && !before.owners().dom().contains(asked) ==> (r matches Some(a)
                && a.ip_address == request.ip_address)
        }),
        r matches Some(a) ==> a.ip_address == request.ip_address || a.ip_address.spec_version()
            == request.ip_version,
{
    lemma_v4_bounds(before.net4());
    let taken4 = taken_of(before.owners(), 4);
    let taken6 = taken_of(before.owners(), 6);
    if let Some(net) = before.net6() {
        lemma_v6_hosts(net);
        lemma_v6_span(net);
    }
    match r {
        Some(a) => {
            let x = key_of(a.ip_address).1;
            if a.ip_address is V4 {
                assert(before.pool4().free.difference(taken4).contains(x)
                    ==> before.pool4().free.contains(x));
            } else if let Some(p) = before.pool6() {
                assert(p.free.difference(taken6).contains(x) ==> p.free.contains(x));
            }
        },
        None => {
            if k.0 == 4 {
                assert(taken4.contains(k.1) <==> before.owners().dom().contains(k));
            }
            if k.0 == 6 {
                assert(taken6.contains(k.1) <==> before.owners().dom().contains(k));
            }
        },
    }
}

proof fn lemma_v6_span(net: Ipv6Net)
    ensures
        net.spec_network() + v6_hosts(net) == net.spec_broadcast() + 1 || v6_hosts(net)
            == 0x1_0000_0000_0000_0000,
{
    lemma_v6_hosts(net);
    vstd::arithmetic::power2::lemma2_to64();
    lemma_width_128(net.addr.bits);
    lemma_net_bounds(net.addr.bits as nat, 128, net.prefix_len as nat);
}

/// After a session is released it holds nothing, what it held is free, and
/// every other session holds what it held.
pub proof fn lemma_release(
    before: AddressPool,
    after: AddressPool,
    session: SessionId,
    k: (u8, u128),
    s: u64,
)
    requires
        before.wf(),
        after.released(before, session),
    ensures
        after.owners().dom().contains(k) <==> before.owners().dom().contains(k)
            && before.owners()[k] != session.0,
        after.owners().dom().contains(k) ==> after.owners()[k] == before.owners()[k],
        !after.holdings().dom().contains(session.0),
        s != session.0 ==> (after.holdings().dom().contains(s) <==> before.holdings().dom().contains(
            s,
        )),
        s != session.0 && before.holdings().dom().contains(s) ==> after.holdings()[s]
            == before.holdings()[s],
        after.net4() == before.net4(),
        after.net6() == before.net6(),
{
}

/// A pool from which nothing was handed out yet hands out the address behind
/// its gateway first, wherever there is one to hand out.
pub proof fn lemma_first_of_pool(
    before: AddressPool,
    after: AddressPool,
    session: SessionId,
    r: Option<AssignedAddress>,
)
    requires
        before.wf(),
        before.pool4() == PoolView::fresh(before.net4().spec_network(), v4_hosts(before.net4())),
        before.owners() == no_addrs(),
        after.after_v4(before, session, 0, r),
        before.net4().spec_network() + 2 < before.net4().spec_broadcast(),
    ensures
        r matches Some(a) && (a.ip_address matches IpAddr::V4(ip) && ip.bits
            == before.net4().spec_network() + 2),
{
    lemma_v4_bounds(before.net4());
    let taken = taken_of(before.owners(), 4);
    let first = (before.net4().spec_network() + 2) as u128;
    assert(!taken.contains(first));
    assert(before.pool4().free == Set::<u128>::empty());
    if r is Some {
        let x = key_of(r->0.ip_address).1;
        assert(!has_any(before.pool4().free.difference(taken)));
        assert(x > first ==> taken.contains(first));
    }
}

} // verus!
