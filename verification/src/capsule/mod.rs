//! The Capsule Protocol as CONNECT-IP uses it (RFC 9484 §4.7).

pub mod address_assign;
pub mod address_request;
pub mod codec;
pub mod route_advertisement;
pub mod stream;

use bytes::{Bytes, BytesMut};
use vstd::prelude::*;
use vstd::slice::slice_subrange;

use crate::buf::{
    append, buffered, consume, contents, copy_frozen, frozen, frozen_slice, has_room, new_buffer,
};
use crate::error::DecodeError;
use crate::net::{IpAddr, IpNet, Ipv4Addr, Ipv6Addr};

use self::address_assign::{
    assigned_len, assigned_list, assigned_payload, lemma_assigned_list_roundtrip,
};
use self::address_request::{
    lemma_requested_list_roundtrip, request_of, requested_len, requested_payload,
};
use self::codec::{
    after_refused, lemma_varint_bytes, lemma_varint_roundtrip, read_varint, varint_at, varint_bytes,
    write_varint, VARINT_MAX,
};
use self::route_advertisement::{
    advertisement_of, lemma_ordered_is_sorted, lemma_range_le, lemma_range_list_roundtrip,
    lemma_sorted_fixpoint, lemma_sorted_ranges, range_follows, range_le, range_payload, ranges_len,
    ranges_ordered, ranges_sorted, sort_ranges, sorted_ranges,
};
use self::stream::next_of;

verus! {

/// Capsule type identifiers per RFC 9484 §12.4.
pub const CAPSULE_ADDRESS_ASSIGN: u64 = 0x01;

pub const CAPSULE_ADDRESS_REQUEST: u64 = 0x02;

pub const CAPSULE_ROUTE_ADVERTISEMENT: u64 = 0x03;

/// A decoded capsule.
#[derive(Debug, Clone)]
pub enum Capsule {
    AddressAssign(AddressAssign),
    AddressRequest(AddressRequest),
    RouteAdvertisement(RouteAdvertisement),
    Unknown { type_id: u64, data: Bytes },
}

/// ADDRESS_ASSIGN capsule (§4.7.1).
#[derive(Debug, Clone, PartialEq, Eq)]
pub struct AddressAssign {
    pub assigned_addresses: Vec<AssignedAddress>,
}

/// A single assigned address within an ADDRESS_ASSIGN capsule.
#[derive(Debug, Clone, Copy, PartialEq, Eq, Structural)]
pub struct AssignedAddress {
    /// VarInt: 0 if unprompted, otherwise matches the request.
    pub request_id: u64,
    /// 4 or 6.
    pub ip_version: u8,
    /// The assigned IP address.
    pub ip_address: IpAddr,
    /// Prefix length: 0..32 for IPv4, 0..128 for IPv6.
    pub prefix_length: u8,
}

/// ADDRESS_REQUEST capsule (§4.7.2).
#[derive(Debug, Clone, PartialEq, Eq)]
pub struct AddressRequest {
    pub requested_addresses: Vec<RequestedAddress>,
}

/// A single requested address within an ADDRESS_REQUEST capsule.
#[derive(Debug, Clone, Copy, PartialEq, Eq, Structural)]
pub struct RequestedAddress {
    /// VarInt: MUST be nonzero, unique per endpoint.
    pub request_id: u64,
    /// 4 or 6.
    pub ip_version: u8,
    /// The requested IP address. 0.0.0.0 or :: means "server picks".
    pub ip_address: IpAddr,
    /// Prefix length: 0..32 for IPv4, 0..128 for IPv6.
    pub prefix_length: u8,
}

/// ROUTE_ADVERTISEMENT capsule (§4.7.3).
#[derive(Debug, Clone, PartialEq, Eq)]
pub struct RouteAdvertisement {
    pub ip_address_ranges: Vec<IpAddressRange>,
}

/// A single IP address range within a ROUTE_ADVERTISEMENT.
/// Ordering rules (§4.7.3): sorted by (ip_version, ip_protocol, start_ip).
#[derive(Debug, Clone, Copy, PartialEq, Eq, Structural)]
pub struct IpAddressRange {
    pub ip_version: u8,
    pub start_ip: IpAddr,
    pub end_ip: IpAddr,
    pub ip_protocol: u8,
}

/// The protocol number whose traffic is always in scope: ICMP for IPv4,
/// ICMPv6 for IPv6.
pub open spec fn icmp_protocol(addr: IpAddr) -> u8 {
    match addr {
        IpAddr::V4(_) => 1,
        IpAddr::V6(_) => 58,
    }
}

impl IpAddressRange {
    /// A packet to `addr` with IP protocol `proto` falls inside this range.
    /// ICMP is exempt from the protocol scope, never from the address range.
    pub open spec fn spec_contains(self, addr: IpAddr, proto: u8) -> bool {
        &&& self.ip_version == addr.spec_version()
        &&& self.ip_protocol == 0 || self.ip_protocol == proto || proto == icmp_protocol(addr)
        &&& self.start_ip.spec_value() <= addr.spec_value() <= self.end_ip.spec_value()
    }

    /// The range from the first to the last address of a prefix.
    pub open spec fn of_net(net: IpNet, ip_protocol: u8) -> IpAddressRange {
        match net {
            IpNet::V4(n) => IpAddressRange {
                ip_version: 4,
                start_ip: IpAddr::V4(Ipv4Addr { bits: n.spec_network() as u32 }),
                end_ip: IpAddr::V4(Ipv4Addr { bits: n.spec_broadcast() as u32 }),
                ip_protocol,
            },
            IpNet::V6(n) => IpAddressRange {
                ip_version: 6,
                start_ip: IpAddr::V6(Ipv6Addr { bits: n.spec_network() as u128 }),
                end_ip: IpAddr::V6(Ipv6Addr { bits: n.spec_broadcast() as u128 }),
                ip_protocol,
            },
        }
    }

    /// The full range covered by a prefix, for the given protocol scope
    /// (0 = all protocols).
    pub fn from_net(net: IpNet, ip_protocol: u8) -> (r: Self)
        ensures
            r == IpAddressRange::of_net(net, ip_protocol),
            r.wf(),
            r.start_ip.spec_value() == net.spec_network(),
            r.end_ip.spec_value() == net.spec_broadcast(),
    {
        proof {
            net.lemma_bounds();
        }
        IpAddressRange {
            ip_version: net.addr().version(),
            start_ip: net.network(),
            end_ip: net.broadcast(),
            ip_protocol,
        }
    }

    /// Whether a packet to `addr` with IP protocol `proto` falls inside
    /// this range (RFC 9484 §4.7.3 matching semantics).
    ///
    /// Per §4.6/§4.7.3, "ICMP traffic is always allowed, regardless of the
    /// value of this field" — the exemption applies to the protocol
    /// dimension only; the address must still match.
    pub fn contains(&self, addr: &IpAddr, proto: u8) -> (v: bool)
        ensures
            v == self.spec_contains(*addr, proto),
    {
        let icmp_proto: u8 = match addr {
            IpAddr::V4(_) => 1,
            IpAddr::V6(_) => 58,
        };
        self.ip_version == addr.version() && (self.ip_protocol == 0 || self.ip_protocol == proto
            || proto == icmp_proto) && self.start_ip.value() <= addr.value() && addr.value()
            <= self.end_ip.value()
    }
}

/// The range of a prefix is well-formed and holds just the prefix.
pub proof fn lemma_of_net(net: IpNet, ip_protocol: u8)
    ensures
        IpAddressRange::of_net(net, ip_protocol).wf(),
        IpAddressRange::of_net(net, ip_protocol).start_ip.spec_value() == net.spec_network(),
        IpAddressRange::of_net(net, ip_protocol).end_ip.spec_value() == net.spec_broadcast(),
{
    vstd::arithmetic::power2::lemma2_to64();
    vstd::arithmetic::power2::lemma_pow2_adds(64, 64);
    net.lemma_bounds();
}

/// `r` overlaps `last` or starts right behind it, in the same scope.
pub open spec fn absorbs(last: IpAddressRange, r: IpAddressRange) -> bool {
    &&& last.ip_version == r.ip_version
    &&& last.ip_protocol == r.ip_protocol
    &&& r.start_ip.spec_value() <= last.end_ip.spec_value() + 1
}

/// `last`, stretched to the end of `r` if that lies further.
pub open spec fn widened(last: IpAddressRange, r: IpAddressRange) -> IpAddressRange {
    if r.end_ip.spec_value() > last.end_ip.spec_value() {
        IpAddressRange { end_ip: r.end_ip, ..last }
    } else {
        last
    }
}

/// The ranges, each folded into the one before it where that absorbs it.
pub open spec fn coalesced(s: Seq<IpAddressRange>) -> Seq<IpAddressRange>
    decreases s.len(),
{
    if s.len() == 0 {
        Seq::empty()
    } else {
        let m = coalesced(s.drop_last());
        let r = s.last();
        if m.len() > 0 && absorbs(m.last(), r) {
            m.drop_last().push(widened(m.last(), r))
        } else {
            m.push(r)
        }
    }
}

/// Address `value` of the given version is in a range with that scope.
pub open spec fn covers(r: IpAddressRange, ip_version: u8, ip_protocol: u8, value: nat) -> bool {
    &&& r.ip_version == ip_version
    &&& r.ip_protocol == ip_protocol
    &&& r.start_ip.spec_value() <= value <= r.end_ip.spec_value()
}

/// Some range of the list covers the address.
pub open spec fn covered(
    s: Seq<IpAddressRange>,
    ip_version: u8,
    ip_protocol: u8,
    value: nat,
) -> bool {
    exists|r: IpAddressRange| #[trigger] s.contains(r) && covers(r, ip_version, ip_protocol, value)
}

/// No two ranges of the same scope overlap or touch.
pub open spec fn ranges_apart(s: Seq<IpAddressRange>) -> bool {
    forall|i: int, j: int|
        0 <= i < j < s.len() && (#[trigger] s[i]).ip_version == (#[trigger] s[j]).ip_version
            && s[i].ip_protocol == s[j].ip_protocol ==> s[i].end_ip.spec_value() + 1
            < s[j].start_ip.spec_value()
}

pub open spec fn all_wf(s: Seq<IpAddressRange>) -> bool {
    forall|i: int| 0 <= i < s.len() ==> (#[trigger] s[i]).wf()
}

/// What holds of the folded list of a sorted list of carriable ranges.
proof fn lemma_coalesced(s: Seq<IpAddressRange>)
    requires
        ranges_sorted(s),
        all_wf(s),
    ensures
        all_wf(coalesced(s)),
        ranges_sorted(coalesced(s)),
        ranges_apart(coalesced(s)),
        s.len() > 0 ==> coalesced(s).len() > 0 && coalesced(s).last().ip_version
            == s.last().ip_version && coalesced(s).last().ip_protocol == s.last().ip_protocol
            && range_le(coalesced(s).last(), s.last()),
    decreases s.len(),
{
    if s.len() > 0 {
        let t = s.drop_last();
        let r = s.last();
        assert(all_wf(t)) by {
            assert forall|i: int| 0 <= i < t.len() implies (#[trigger] t[i]).wf() by {
                assert(s[i].wf());
            }
        }
        assert(ranges_sorted(t)) by {
            assert forall|i: int, j: int| 0 <= i <= j < t.len() implies range_le(
                #[trigger] t[i],
                #[trigger] t[j],
            ) by {
                assert(range_le(s[i], s[j]));
            }
        }
        lemma_coalesced(t);
        let m = coalesced(t);
        let c = coalesced(s);
        assert(s[s.len() - 1].wf());
        if m.len() > 0 {
            assert(t.len() > 0) by {
                if t.len() == 0 {
                    assert(coalesced(t).len() == 0);
                }
            }
            assert(range_le(s[s.len() - 2], s[s.len() - 1]));
            lemma_range_le(m.last(), t.last(), r);
        }
        if m.len() > 0 && absorbs(m.last(), r) {
            let w = widened(m.last(), r);
            assert(m[m.len() - 1].wf());
            assert forall|i: int| 0 <= i < c.len() implies (#[trigger] c[i]).wf() by {
                if i < m.len() - 1 {
                    assert(c[i] == m[i]);
                }
            }
            assert forall|i: int, j: int| 0 <= i <= j < c.len() implies range_le(
                #[trigger] c[i],
                #[trigger] c[j],
            ) by {
                assert(range_le(m[i], m[j]));
            }
            assert forall|i: int, j: int|
                0 <= i < j < c.len() && (#[trigger] c[i]).ip_version == (
                #[trigger] c[j]).ip_version && c[i].ip_protocol
                    == c[j].ip_protocol implies c[i].end_ip.spec_value() + 1
                < c[j].start_ip.spec_value() by {
                assert(c[i] == m[i]);
                assert(c[j].start_ip == m[j].start_ip);
                assert(m[i].ip_version == m[j].ip_version);
            }
        } else {
            assert forall|i: int| 0 <= i < c.len() implies (#[trigger] c[i]).wf() by {
                if i < m.len() {
                    assert(c[i] == m[i]);
                }
            }
            assert forall|i: int, j: int| 0 <= i <= j < c.len() implies range_le(
                #[trigger] c[i],
                #[trigger] c[j],
            ) by {
                if j < m.len() {
                    assert(range_le(m[i], m[j]));
                } else if i < m.len() {
                    assert(range_le(m[i], m[m.len() - 1]));
                    lemma_range_le(m[i], m.last(), r);
                } else {
                    lemma_range_le(r, r, r);
                }
            }
            assert forall|i: int, j: int|
                0 <= i < j < c.len() && (#[trigger] c[i]).ip_version == (
                #[trigger] c[j]).ip_version && c[i].ip_protocol
                    == c[j].ip_protocol implies c[i].end_ip.spec_value() + 1
                < c[j].start_ip.spec_value() by {
                assert(c[i] == m[i]);
                if j < m.len() {
                    assert(c[j] == m[j]);
                } else {
                    let l = m.last();
                    assert(range_le(m[i], m[m.len() - 1]));
                    assert(l.ip_version == r.ip_version && l.ip_protocol == r.ip_protocol);
                    assert(m[m.len() - 1].wf());
                    if i < m.len() - 1 {
                        assert(m[i].ip_version == m[m.len() - 1].ip_version);
                    }
                }
            }
            lemma_range_le(r, r, r);
        }
    }
}

/// Folding neither loses nor gains an address.
proof fn lemma_coalesced_covers(
    s: Seq<IpAddressRange>,
    ip_version: u8,
    ip_protocol: u8,
    value: nat,
)
    requires
        ranges_sorted(s),
        all_wf(s),
    ensures
        covered(coalesced(s), ip_version, ip_protocol, value) <==> covered(
            s,
            ip_version,
            ip_protocol,
            value,
        ),
    decreases s.len(),
{
    if s.len() > 0 {
        let t = s.drop_last();
        let r = s.last();
        assert(all_wf(t)) by {
            assert forall|i: int| 0 <= i < t.len() implies (#[trigger] t[i]).wf() by {
                assert(s[i].wf());
            }
        }
        assert(ranges_sorted(t)) by {
            assert forall|i: int, j: int| 0 <= i <= j < t.len() implies range_le(
                #[trigger] t[i],
                #[trigger] t[j],
            ) by {
                assert(range_le(s[i], s[j]));
            }
        }
        lemma_coalesced_covers(t, ip_version, ip_protocol, value);
        lemma_coalesced(t);
        let m = coalesced(t);
        let c = coalesced(s);
        assert(s =~= t.push(r));
        lemma_covered_push(t, r, ip_version, ip_protocol, value);
        if m.len() > 0 && absorbs(m.last(), r) {
            let w = widened(m.last(), r);
            let d = m.drop_last();
            assert(m =~= d.push(m.last()));
            lemma_covered_push(d, m.last(), ip_version, ip_protocol, value);
            lemma_covered_push(d, w, ip_version, ip_protocol, value);
            assert(t.len() > 0) by {
                if t.len() == 0 {
                    assert(coalesced(t).len() == 0);
                }
            }
            assert(range_le(s[s.len() - 2], s[s.len() - 1]));
            lemma_range_le(m.last(), t.last(), r);
            assert(s[s.len() - 1].wf());
            assert(m[m.len() - 1].wf());
            assert(covers(w, ip_version, ip_protocol, value) <==> covers(
                m.last(),
                ip_version,
                ip_protocol,
                value,
            ) || covers(r, ip_version, ip_protocol, value));
        } else {
            lemma_covered_push(m, r, ip_version, ip_protocol, value);
        }
    } else {
        assert(coalesced(s) =~= s);
    }
}

proof fn lemma_covered_push(
    s: Seq<IpAddressRange>,
    r: IpAddressRange,
    ip_version: u8,
    ip_protocol: u8,
    value: nat,
)
    ensures
        covered(s.push(r), ip_version, ip_protocol, value) <==> covered(
            s,
            ip_version,
            ip_protocol,
            value,
        ) || covers(r, ip_version, ip_protocol, value),
{
    let p = s.push(r);
    if covered(p, ip_version, ip_protocol, value) {
        let x = choose|x: IpAddressRange| #[trigger]
            p.contains(x) && covers(x, ip_version, ip_protocol, value);
        let i = choose|i: int| 0 <= i < p.len() && p[i] == x;
        if i < s.len() {
            assert(s[i] == x);
            assert(s.contains(x));
        }
    }
    if covered(s, ip_version, ip_protocol, value) {
        let x = choose|x: IpAddressRange| #[trigger]
            s.contains(x) && covers(x, ip_version, ip_protocol, value);
        let i = choose|i: int| 0 <= i < s.len() && s[i] == x;
        assert(p[i] == x);
        assert(p.contains(x));
    }
    if covers(r, ip_version, ip_protocol, value) {
        assert(p[s.len() as int] == r);
        assert(p.contains(r));
    }
}

/// Merging keeps the set of advertised addresses: an address is covered under
/// a scope after merging exactly if it was before.
pub proof fn lemma_merge_covers(
    ranges: Seq<IpAddressRange>,
    ip_version: u8,
    ip_protocol: u8,
    value: nat,
)
    requires
        all_wf(ranges),
    ensures
        covered(coalesced(sorted_ranges(ranges)), ip_version, ip_protocol, value) <==> covered(
            ranges,
            ip_version,
            ip_protocol,
            value,
        ),
{
    let s = sorted_ranges(ranges);
    lemma_sorted_ranges(ranges);
    lemma_same_contents(ranges, s);
    lemma_coalesced_covers(s, ip_version, ip_protocol, value);
    assert(forall|r: IpAddressRange| #[trigger] s.contains(r) <==> ranges.contains(r));
}

proof fn lemma_same_contents(a: Seq<IpAddressRange>, b: Seq<IpAddressRange>)
    requires
        a.to_multiset() == b.to_multiset(),
    ensures
        forall|r: IpAddressRange| #[trigger] a.contains(r) <==> b.contains(r),
        all_wf(a) <==> all_wf(b),
{
    broadcast use vstd::seq_lib::group_to_multiset_ensures;

    assert forall|r: IpAddressRange| #[trigger] a.contains(r) <==> b.contains(r) by {
        assert(a.contains(r) <==> a.to_multiset().count(r) > 0);
        assert(b.contains(r) <==> b.to_multiset().count(r) > 0);
    }
    assert(all_wf(a) ==> all_wf(b)) by {
        if all_wf(a) {
            assert forall|i: int| 0 <= i < b.len() implies (#[trigger] b[i]).wf() by {
                assert(b.contains(b[i]));
                assert(a.contains(b[i]));
                let k = choose|k: int| 0 <= k < a.len() && a[k] == b[i];
                assert(a[k].wf());
            }
        }
    }
    assert(all_wf(b) ==> all_wf(a)) by {
        if all_wf(b) {
            assert forall|i: int| 0 <= i < a.len() implies (#[trigger] a[i]).wf() by {
                assert(a.contains(a[i]));
                assert(b.contains(a[i]));
                let k = choose|k: int| 0 <= k < b.len() && b[k] == a[i];
                assert(b[k].wf());
            }
        }
    }
}

/// Merged ranges are in wire order and apart from each other, so they make a
/// valid ROUTE_ADVERTISEMENT.
pub proof fn lemma_merge_valid(ranges: Seq<IpAddressRange>)
    requires
        all_wf(ranges),
    ensures
        all_wf(coalesced(sorted_ranges(ranges))),
        ranges_apart(coalesced(sorted_ranges(ranges))),
        ranges_ordered(coalesced(sorted_ranges(ranges))),
{
    let s = sorted_ranges(ranges);
    lemma_sorted_ranges(ranges);
    lemma_same_contents(ranges, s);
    lemma_coalesced(s);
    let c = coalesced(s);
    assert forall|i: int, j: int| 0 <= i && j == i + 1 && j < c.len() implies range_follows(
        #[trigger] c[i],
        #[trigger] c[j],
    ) by {
        assert(range_le(c[i], c[j]));
        assert(c[i].wf() && c[j].wf());
    }
}

/// Sort ranges by (version, protocol, start) and coalesce overlapping or
/// adjacent ones — ROUTE_ADVERTISEMENT forbids overlaps (RFC 9484 §4.7.3).
pub fn merge_ranges(ranges: Vec<IpAddressRange>) -> (merged: Vec<IpAddressRange>)
    ensures
        merged@ == coalesced(sorted_ranges(ranges@)),
{
    let sorted = sort_ranges(&ranges);
    let mut merged: Vec<IpAddressRange> = Vec::new();
    let mut i: usize = 0;
    assert(sorted@.take(0) =~= Seq::<IpAddressRange>::empty());
    while i < sorted.len()
        invariant
            i <= sorted@.len(),
            merged@ == coalesced(sorted@.take(i as int)),
        decreases sorted@.len() - i,
    {
        let range = sorted[i];
        let n: usize = merged.len();
        proof {
            assert(sorted@.take(i + 1).drop_last() =~= sorted@.take(i as int));
        }
        if n > 0 && merged[n - 1].ip_version == range.ip_version && merged[n - 1].ip_protocol
            == range.ip_protocol && range.start_ip.value() <= merged[n - 1].end_ip.value().saturating_add(
            1,
        ) {
            let mut last = merged[n - 1];
            if range.end_ip.value() > last.end_ip.value() {
                last.end_ip = range.end_ip;
            }
            let ghost before = merged@;
            let _ = merged.pop();
            merged.push(last);
            assert(merged@ =~= before.drop_last().push(widened(before.last(), range)));
        } else {
            merged.push(range);
        }
        i = i + 1;
    }
    assert(sorted@.take(i as int) =~= sorted@);
    merged
}

/// What a capsule carries, as plain values.
pub enum CapsuleView {
    AddressAssign(Seq<AssignedAddress>),
    AddressRequest(Seq<RequestedAddress>),
    RouteAdvertisement(Seq<IpAddressRange>),
    Unknown { type_id: u64, data: Seq<u8> },
}

impl View for Capsule {
    type V = CapsuleView;

    open spec fn view(&self) -> CapsuleView {
        match self {
            Capsule::AddressAssign(c) => CapsuleView::AddressAssign(c.assigned_addresses@),
            Capsule::AddressRequest(c) => CapsuleView::AddressRequest(c.requested_addresses@),
            Capsule::RouteAdvertisement(c) => CapsuleView::RouteAdvertisement(
                c.ip_address_ranges@,
            ),
            Capsule::Unknown { type_id, data } => CapsuleView::Unknown {
                type_id: *type_id,
                data: frozen(*data),
            },
        }
    }
}

/// The envelope at the front of `s`: type, payload length, and the length of
/// the two varints.
pub open spec fn envelope_at(s: Seq<u8>) -> Option<(u64, u64, nat)> {
    match varint_at(s) {
        None => None,
        Some((type_id, n)) => match varint_at(s.skip(n as int)) {
            None => None,
            Some((len, m)) => Some((type_id, len, n + m)),
        },
    }
}

/// The whole capsule, envelope and payload, stands at the front of `s`.
pub open spec fn capsule_complete(s: Seq<u8>) -> bool {
    envelope_at(s) matches Some((_, len, n)) && n + len <= s.len()
}

/// The payload of the capsule at the front of `s`.
pub open spec fn capsule_payload(s: Seq<u8>) -> Seq<u8>
    recommends
        capsule_complete(s),
{
    let (_, len, n) = envelope_at(s).unwrap();
    s.subrange(n as int, n + len)
}

/// What follows the capsule at the front of `s`.
pub open spec fn after_capsule(s: Seq<u8>) -> Seq<u8>
    recommends
        capsule_complete(s),
{
    let (_, len, n) = envelope_at(s).unwrap();
    s.skip(n + len)
}

/// The capsule that a payload of the given type spells.
pub open spec fn payload_of(type_id: u64, payload: Seq<u8>) -> Result<CapsuleView, DecodeError> {
    if type_id == CAPSULE_ADDRESS_ASSIGN {
        match assigned_list(payload) {
            Ok(list) => Ok(CapsuleView::AddressAssign(list)),
            Err(e) => Err(e),
        }
    } else if type_id == CAPSULE_ADDRESS_REQUEST {
        match request_of(payload) {
            Ok(list) => Ok(CapsuleView::AddressRequest(list)),
            Err(e) => Err(e),
        }
    } else if type_id == CAPSULE_ROUTE_ADVERTISEMENT {
        match advertisement_of(payload) {
            Ok(list) => Ok(CapsuleView::RouteAdvertisement(list)),
            Err(e) => Err(e),
        }
    } else {
        Ok(CapsuleView::Unknown { type_id, data: payload })
    }
}

/// The capsule at the front of `s`, or why there is none.
pub open spec fn capsule_at(s: Seq<u8>) -> Result<CapsuleView, DecodeError> {
    match envelope_at(s) {
        None => Err(DecodeError::Underflow),
        Some((type_id, len, n)) => if n + len > s.len() {
            Err(
                DecodeError::BufferTooShort {
                    needed: len as usize,
                    available: (s.len() - n) as usize,
                },
            )
        } else {
            payload_of(type_id, capsule_payload(s))
        },
    }
}

/// The encoding of a capsule: type, announced length, payload.
pub open spec fn capsule_bytes(c: CapsuleView) -> Seq<u8> {
    match c {
        CapsuleView::AddressAssign(list) => varint_bytes(CAPSULE_ADDRESS_ASSIGN) + varint_bytes(
            assigned_len(list) as u64,
        ) + assigned_payload(list),
        CapsuleView::AddressRequest(list) => varint_bytes(CAPSULE_ADDRESS_REQUEST) + varint_bytes(
            requested_len(list) as u64,
        ) + requested_payload(list),
        CapsuleView::RouteAdvertisement(list) => varint_bytes(CAPSULE_ROUTE_ADVERTISEMENT)
            + varint_bytes(ranges_len(sorted_ranges(list)) as u64) + range_payload(
            sorted_ranges(list),
        ),
        CapsuleView::Unknown { type_id, data } => varint_bytes(type_id) + varint_bytes(
            data.len() as u64,
        ) + data,
    }
}

/// The payload bytes of an encoded capsule.
pub open spec fn payload_bytes(c: CapsuleView) -> Seq<u8> {
    match c {
        CapsuleView::AddressAssign(list) => assigned_payload(list),
        CapsuleView::AddressRequest(list) => requested_payload(list),
        CapsuleView::RouteAdvertisement(list) => range_payload(sorted_ranges(list)),
        CapsuleView::Unknown { type_id, data } => data,
    }
}

/// The payload length an encoded capsule announces.
pub open spec fn announced_len(c: CapsuleView) -> nat {
    match c {
        CapsuleView::AddressAssign(list) => assigned_len(list),
        CapsuleView::AddressRequest(list) => requested_len(list),
        CapsuleView::RouteAdvertisement(list) => ranges_len(sorted_ranges(list)),
        CapsuleView::Unknown { type_id, data } => data.len(),
    }
}

/// Every number in the capsule can be written as a variable-length integer.
pub open spec fn capsule_encodable(c: CapsuleView) -> bool {
    &&& announced_len(c) <= VARINT_MAX
    &&& announced_len(c) <= usize::MAX
    &&& match c {
        CapsuleView::AddressAssign(list) => forall|i: int|
            0 <= i < list.len() ==> (#[trigger] list[i]).request_id <= VARINT_MAX,
        CapsuleView::AddressRequest(list) => forall|i: int|
            0 <= i < list.len() ==> (#[trigger] list[i]).request_id <= VARINT_MAX,
        CapsuleView::RouteAdvertisement(_) => true,
        CapsuleView::Unknown { type_id, .. } => type_id <= VARINT_MAX,
    }
}

/// A capsule that the wire format can carry: every entry is carriable, a
/// request has at least one, an advertisement is in wire order, and an
/// unknown capsule does not use the type of a known one.
pub open spec fn capsule_wf(c: CapsuleView) -> bool {
    &&& capsule_encodable(c)
    &&& match c {
        CapsuleView::AddressAssign(list) => forall|i: int|
            0 <= i < list.len() ==> (#[trigger] list[i]).wf(),
        CapsuleView::AddressRequest(list) => list.len() > 0 && forall|i: int|
            0 <= i < list.len() ==> (#[trigger] list[i]).wf(),
        CapsuleView::RouteAdvertisement(list) => all_wf(list) && ranges_ordered(list),
        CapsuleView::Unknown { type_id, .. } => type_id != CAPSULE_ADDRESS_ASSIGN && type_id
            != CAPSULE_ADDRESS_REQUEST && type_id != CAPSULE_ROUTE_ADVERTISEMENT,
    }
}

/// Reading an envelope back.
proof fn lemma_envelope(type_id: u64, payload: Seq<u8>, rest: Seq<u8>)
    requires
        type_id <= VARINT_MAX,
        payload.len() <= VARINT_MAX,
    ensures
        ({
            let s = varint_bytes(type_id) + varint_bytes(payload.len() as u64) + payload + rest;
            &&& capsule_complete(s)
            &&& envelope_at(s) matches Some((t, _, _)) && t == type_id
            &&& capsule_payload(s) == payload
            &&& after_capsule(s) == rest
        }),
{
    let len = payload.len() as u64;
    let t = varint_bytes(type_id);
    let l = varint_bytes(len);
    let s = t + l + payload + rest;
    assert(s =~= t + (l + (payload + rest)));
    lemma_varint_roundtrip(type_id, l + (payload + rest));
    lemma_varint_roundtrip(len, payload + rest);
    assert(s.skip(t.len() as int) =~= l + (payload + rest));
    assert(envelope_at(s) == Some((type_id, len, t.len() + l.len())));
    assert(capsule_payload(s) =~= payload);
    assert(after_capsule(s) =~= rest);
}

/// Decoding what was encoded gives the capsule back, whatever follows it on
/// the stream, and consumes exactly what was encoded.
pub proof fn lemma_capsule_roundtrip(c: CapsuleView, rest: Seq<u8>)
    requires
        capsule_wf(c),
    ensures
        capsule_complete(capsule_bytes(c) + rest),
        capsule_at(capsule_bytes(c) + rest) == Ok::<CapsuleView, DecodeError>(c),
        after_capsule(capsule_bytes(c) + rest) == rest,
{
    match c {
        CapsuleView::AddressAssign(list) => {
            lemma_assigned_list_roundtrip(list);
            lemma_envelope(CAPSULE_ADDRESS_ASSIGN, assigned_payload(list), rest);
        },
        CapsuleView::AddressRequest(list) => {
            lemma_requested_list_roundtrip(list);
            lemma_envelope(CAPSULE_ADDRESS_REQUEST, requested_payload(list), rest);
        },
        CapsuleView::RouteAdvertisement(list) => {
            lemma_ordered_is_sorted(list);
            lemma_sorted_fixpoint(list);
            lemma_range_list_roundtrip(list);
            lemma_envelope(CAPSULE_ROUTE_ADVERTISEMENT, range_payload(list), rest);
        },
        CapsuleView::Unknown { type_id, data } => {
            lemma_envelope(type_id, data, rest);
        },
    }
}

/// A varint that is all there stays the same when more bytes follow.
proof fn lemma_varint_extend(s: Seq<u8>, more: Seq<u8>)
    requires
        varint_at(s) is Some,
    ensures
        varint_at(s + more) == varint_at(s),
        1 <= varint_at(s).unwrap().1 <= s.len(),
{
    let w = codec::announced_width(s[0]);
    assert((s + more).take(w as int) =~= s.take(w as int));
}

/// A capsule that is all there decodes the same whatever arrives behind it.
pub proof fn lemma_capsule_extend(s: Seq<u8>, more: Seq<u8>)
    requires
        capsule_complete(s),
    ensures
        capsule_complete(s + more),
        capsule_at(s + more) == capsule_at(s),
        after_capsule(s + more) == after_capsule(s) + more,
{
    let (type_id, n) = varint_at(s).unwrap();
    lemma_varint_extend(s, more);
    lemma_varint_extend(s.skip(n as int), more);
    assert((s + more).skip(n as int) =~= s.skip(n as int) + more);
    assert(envelope_at(s + more) == envelope_at(s));
    assert(capsule_payload(s + more) =~= capsule_payload(s));
    assert(after_capsule(s + more) =~= after_capsule(s) + more);
}

/// However a capsule is split, no strict prefix of it decodes: the reader
/// waits until the last byte is there.
pub proof fn lemma_capsule_split(c: CapsuleView, k: int)
    requires
        capsule_wf(c),
        0 <= k < capsule_bytes(c).len(),
    ensures
        !capsule_complete(capsule_bytes(c).take(k)),
{
    let s = capsule_bytes(c);
    let p = s.take(k);
    if capsule_complete(p) {
        let more = s.skip(k);
        assert(p + more =~= s);
        lemma_capsule_extend(p, more);
        lemma_capsule_roundtrip(c, Seq::empty());
        assert(s + Seq::<u8>::empty() =~= s);
        assert(after_capsule(s).len() == 0);
        assert(after_capsule(p).len() + more.len() == 0);
    }
}

/// Decode a capsule from the front of the buffer (type + length + payload
/// envelope). A capsule whose payload is all there is consumed even when the
/// payload is malformed; of one that is not, only the varints are.
pub fn decode_capsule(buf: &mut &[u8]) -> (r: Result<Capsule, DecodeError>)
    ensures
        match capsule_at(old(buf)@) {
            Ok(c) => r is Ok && r->Ok_0@ == c,
            Err(e) => r == Err::<Capsule, DecodeError>(e),
        },
        capsule_complete(old(buf)@) ==> final(buf)@ == after_capsule(old(buf)@),
        envelope_at(old(buf)@) is Some && !capsule_complete(old(buf)@) ==> final(buf)@ == old(
            buf,
        )@.skip(envelope_at(old(buf)@).unwrap().2 as int),
        envelope_at(old(buf)@) is None ==> final(buf)@ == match varint_at(old(buf)@) {
            None => after_refused(old(buf)@),
            Some((_, n)) => after_refused(old(buf)@.skip(n as int)),
        },
{
    let ghost s = buf@;
    let capsule_type: u64 = match read_varint(buf) {
        Ok(v) => v,
        Err(e) => {
            return Err(e);
        },
    };
    let ghost n = varint_at(s).unwrap().1;
    let capsule_length: u64 = match read_varint(buf) {
        Ok(v) => v,
        Err(e) => {
            return Err(e);
        },
    };
    let ghost m = varint_at(s.skip(n as int)).unwrap().1;
    let rest: &[u8] = *buf;
    assert(rest@ =~= s.skip((n + m) as int));
    let available: usize = rest.len();
    if (available as u64) < capsule_length {
        return Err(
            DecodeError::BufferTooShort { needed: capsule_length as usize, available },
        );
    }
    let len: usize = capsule_length as usize;
    let payload = slice_subrange(rest, 0, len);
    *buf = slice_subrange(rest, len, available);
    proof {
        assert(payload@ =~= capsule_payload(s));
        assert(buf@ =~= after_capsule(s));
    }
    match capsule_type {
        CAPSULE_ADDRESS_ASSIGN => match AddressAssign::decode(payload) {
            Ok(c) => Ok(Capsule::AddressAssign(c)),
            Err(e) => Err(e),
        },
        CAPSULE_ADDRESS_REQUEST => match AddressRequest::decode(payload) {
            Ok(c) => Ok(Capsule::AddressRequest(c)),
            Err(e) => Err(e),
        },
        CAPSULE_ROUTE_ADVERTISEMENT => match RouteAdvertisement::decode(payload) {
            Ok(c) => Ok(Capsule::RouteAdvertisement(c)),
            Err(e) => Err(e),
        },
        other => Ok(Capsule::Unknown { type_id: other, data: copy_frozen(payload) }),
    }
}

/// Accumulates stream bytes and yields complete capsules.
///
/// The capsule protocol runs on the request stream, where a capsule may
/// arrive split across arbitrary read chunks (or several per chunk). Push
/// every chunk in with [`CapsuleBuffer::push`], then drain complete capsules
/// with [`CapsuleBuffer::next_capsule`].
#[derive(Debug)]
pub struct CapsuleBuffer {
    buf: BytesMut,
}

impl View for CapsuleBuffer {
    type V = Seq<u8>;

    /// The bytes received and not yet consumed.
    closed spec fn view(&self) -> Seq<u8> {
        buffered(self.buf)
    }
}

impl CapsuleBuffer {
    pub fn new() -> (b: Self)
        ensures
            b@ == Seq::<u8>::empty(),
    {
        CapsuleBuffer { buf: new_buffer() }
    }

    /// Append incoming stream bytes.
    pub fn push(&mut self, chunk: &[u8])
        requires
            old(self)@.len() + chunk@.len() <= isize::MAX,
        ensures
            final(self)@ == old(self)@ + chunk@,
    {
        append(&mut self.buf, chunk);
    }

    /// Decode the next complete capsule, or `None` if more bytes are needed.
    ///
    /// An incomplete *envelope* (type/length varints or a partially received
    /// payload) waits for more data. A malformed payload inside a complete
    /// envelope is a hard error — waiting could never fix it.
    pub fn next_capsule(&mut self) -> (r: Result<Option<Capsule>, DecodeError>)
        ensures
            final(self)@ == next_of(old(self)@).1,
            match next_of(old(self)@).0 {
                Ok(Some(c)) => r matches Ok(Some(got)) && got@ == c,
                Ok(None) => r == Ok::<Option<Capsule>, DecodeError>(None),
                Err(e) => r == Err::<Option<Capsule>, DecodeError>(e),
            },
    {
        let ghost s = buffered(self.buf);
        // Parse the envelope on a peek view so nothing is consumed until the
        // whole capsule is present.
        let whole: &[u8] = contents(&self.buf);
        let total: usize = whole.len();
        let mut view: &[u8] = whole;
        match read_varint(&mut view) {
            Ok(_) => {},
            Err(_) => {
                return Ok(None);
            },
        }
        let capsule_length: u64 = match read_varint(&mut view) {
            Ok(v) => v,
            Err(_) => {
                return Ok(None);
            },
        };
        if (view.len() as u64) < capsule_length {
            return Ok(None);
        }
        // The full capsule is buffered: any decode failure now is fatal.
        assert(capsule_complete(s));
        let mut rest: &[u8] = whole;
        let result = decode_capsule(&mut rest);
        let taken: usize = total - rest.len();
        consume(&mut self.buf, taken);
        proof {
            assert(self@ =~= after_capsule(s));
        }
        match result {
            Ok(c) => Ok(Some(c)),
            Err(e) => Err(e),
        }
    }
}

impl Default for CapsuleBuffer {
    fn default() -> (b: Self)
        ensures
            b@ == Seq::<u8>::empty(),
    {
        CapsuleBuffer::new()
    }
}

/// Encode a capsule into the buffer (type + length + payload envelope).
pub fn encode_capsule(capsule: &Capsule, buf: &mut BytesMut)
    requires
        capsule_encodable(capsule@),
        has_room(*old(buf), 16 + payload_bytes(capsule@).len()),
    ensures
        buffered(*final(buf)) == buffered(*old(buf)) + capsule_bytes(capsule@),
{
    match capsule {
        Capsule::AddressAssign(c) => {
            c.encode(buf);
        },
        Capsule::AddressRequest(c) => {
            c.encode(buf);
        },
        Capsule::RouteAdvertisement(c) => {
            c.encode(buf);
        },
        Capsule::Unknown { type_id, data } => {
            let bytes = frozen_slice(data);
            proof {
                lemma_varint_bytes(*type_id);
                lemma_varint_bytes(bytes@.len() as u64);
            }
            let _ = write_varint(buf, *type_id);
            let _ = write_varint(buf, bytes.len() as u64);
            append(buf, bytes);
        },
    }
    proof {
        assert(buffered(*buf) =~= buffered(*old(buf)) + capsule_bytes(capsule@));
    }
}

/// A capsule on the wire: its type (1 for ADDRESS_ASSIGN, 2 for
/// ADDRESS_REQUEST, 3 for ROUTE_ADVERTISEMENT), the length of its payload, and
/// its payload.
pub proof fn lemma_capsule_layout(c: CapsuleView)
    requires
        capsule_wf(c),
    ensures
        capsule_bytes(c) == varint_bytes(
            match c {
                CapsuleView::AddressAssign(_) => 1u64,
                CapsuleView::AddressRequest(_) => 2u64,
                CapsuleView::RouteAdvertisement(_) => 3u64,
                CapsuleView::Unknown { type_id, .. } => type_id,
            },
        ) + varint_bytes(payload_bytes(c).len() as u64) + payload_bytes(c),
        c matches CapsuleView::Unknown { data, .. } ==> payload_bytes(c) == data,
        c matches CapsuleView::AddressAssign(list) ==> payload_bytes(c) == assigned_payload(list),
        c matches CapsuleView::AddressRequest(list) ==> payload_bytes(c) == requested_payload(list),
        c matches CapsuleView::RouteAdvertisement(list) ==> payload_bytes(c) == range_payload(list),
{
    match c {
        CapsuleView::AddressAssign(list) => lemma_assigned_list_roundtrip(list),
        CapsuleView::AddressRequest(list) => lemma_requested_list_roundtrip(list),
        CapsuleView::RouteAdvertisement(list) => {
            crate::capsule::route_advertisement::lemma_ordered_is_sorted(list);
            crate::capsule::route_advertisement::lemma_sorted_fixpoint(list);
            lemma_range_list_roundtrip(list);
        },
        CapsuleView::Unknown { .. } => {},
    }
}

/// A range allows an address of its family between its ends, under its own
/// protocol, or any if it has none; ICMP of the family it always allows.
pub proof fn lemma_range_allows(r: IpAddressRange, addr: IpAddr, proto: u8)
    ensures
        r.spec_contains(addr, proto) <==> {
            &&& r.ip_version == if addr is V4 {
                4int
            } else {
                6
            }
            &&& r.start_ip.spec_value() <= addr.spec_value()
            &&& addr.spec_value() <= r.end_ip.spec_value()
            &&& r.ip_protocol == 0 || r.ip_protocol == proto || (addr is V4 && proto == 1) || (
            addr is V6 && proto == 58)
        },
{
}

/// A payload is read by its type, and a fault in it is a fault of the capsule;
/// the payload of a type that is not known is kept as it is.
pub proof fn lemma_payload(type_id: u64, payload: Seq<u8>)
    ensures
        type_id == 1 ==> (payload_of(type_id, payload) is Ok <==> assigned_list(payload) is Ok) && (
        assigned_list(payload) matches Ok(list) ==> payload_of(type_id, payload) == Ok::<
            CapsuleView,
            DecodeError,
        >(CapsuleView::AddressAssign(list))),
        type_id == 2 ==> (payload_of(type_id, payload) is Ok <==> request_of(payload) is Ok) && (
        request_of(payload) matches Ok(list) ==> payload_of(type_id, payload) == Ok::<
            CapsuleView,
            DecodeError,
        >(CapsuleView::AddressRequest(list))),
        type_id == 3 ==> (payload_of(type_id, payload) is Ok <==> advertisement_of(payload) is Ok)
            && (advertisement_of(payload) matches Ok(list) ==> payload_of(type_id, payload) == Ok::<
            CapsuleView,
            DecodeError,
        >(CapsuleView::RouteAdvertisement(list))),
        type_id == 0 || type_id > 3 ==> payload_of(type_id, payload) == Ok::<
            CapsuleView,
            DecodeError,
        >(CapsuleView::Unknown { type_id, data: payload }),
{
}

} // verus!
