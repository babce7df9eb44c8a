//! ROUTE_ADVERTISEMENT (RFC 9484 §4.7.3).

use bytes::BytesMut;
use vstd::prelude::*;
use vstd::slice::slice_subrange;

use crate::buf::{append, buffered, has_room};
use crate::bigendian::be_value;
use crate::capsule::address_assign::{
    decode_ip_address, ip_at, lemma_ip_roundtrip, lemma_prefix_layout, prefix_bytes,
};
use crate::capsule::codec::{lemma_varint_bytes, varint_bytes, write_varint, VARINT_MAX};
use crate::capsule::{IpAddressRange, RouteAdvertisement, CAPSULE_ROUTE_ADVERTISEMENT};
use crate::error::DecodeError;
use crate::net::IpAddr;

verus! {

/// `a` comes no later than `b` by (ip_version, ip_protocol, start_ip).
pub open spec fn range_le(a: IpAddressRange, b: IpAddressRange) -> bool {
    ||| a.ip_version < b.ip_version
    ||| a.ip_version == b.ip_version && a.ip_protocol < b.ip_protocol
    ||| a.ip_version == b.ip_version && a.ip_protocol == b.ip_protocol && a.start_ip.spec_le(
        b.start_ip,
    )
}

/// `b` may follow `a` on the wire: it comes later by (ip_version,
/// ip_protocol, start_ip), or shares all three and ends later.
pub open spec fn range_follows(a: IpAddressRange, b: IpAddressRange) -> bool {
    range_le(a, b) && (range_le(b, a) ==> !b.end_ip.spec_le(a.end_ip))
}

/// Every range may follow the one before it.
pub open spec fn ranges_ordered(s: Seq<IpAddressRange>) -> bool {
    forall|i: int, j: int|
        0 <= i && j == i + 1 && j < s.len() ==> range_follows(#[trigger] s[i], #[trigger] s[j])
}

/// Ranges in (ip_version, ip_protocol, start_ip) order.
pub open spec fn ranges_sorted(s: Seq<IpAddressRange>) -> bool {
    forall|i: int, j: int| 0 <= i <= j < s.len() ==> range_le(#[trigger] s[i], #[trigger] s[j])
}

/// Where a range goes in a sorted list: behind everything that comes no later.
pub open spec fn insert_pos(s: Seq<IpAddressRange>, r: IpAddressRange) -> nat
    decreases s.len(),
{
    if s.len() == 0 {
        0
    } else if range_le(s.last(), r) {
        s.len()
    } else {
        insert_pos(s.drop_last(), r)
    }
}

/// The ranges in (ip_version, ip_protocol, start_ip) order, equal ones in the
/// order they came.
pub open spec fn sorted_ranges(s: Seq<IpAddressRange>) -> Seq<IpAddressRange>
    decreases s.len(),
{
    if s.len() == 0 {
        Seq::empty()
    } else {
        let t = sorted_ranges(s.drop_last());
        t.insert(insert_pos(t, s.last()) as int, s.last())
    }
}

/// The order on ranges is total and transitive.
pub proof fn lemma_range_le(a: IpAddressRange, b: IpAddressRange, c: IpAddressRange)
    ensures
        range_le(a, b) || range_le(b, a),
        range_le(a, b) && range_le(b, c) ==> range_le(a, c),
        range_le(a, a),
{
}

proof fn lemma_insert_pos(s: Seq<IpAddressRange>, r: IpAddressRange)
    requires
        ranges_sorted(s),
    ensures
        insert_pos(s, r) <= s.len(),
        forall|i: int| 0 <= i < insert_pos(s, r) ==> range_le(#[trigger] s[i], r),
        forall|i: int| insert_pos(s, r) <= i < s.len() ==> range_le(r, #[trigger] s[i]),
        forall|i: int| insert_pos(s, r) <= i < s.len() ==> !range_le(#[trigger] s[i], r),
    decreases s.len(),
{
    if s.len() > 0 {
        if range_le(s.last(), r) {
            assert forall|i: int| 0 <= i < s.len() implies range_le(#[trigger] s[i], r) by {
                assert(range_le(s[i], s[s.len() - 1]));
                lemma_range_le(s[i], s.last(), r);
            }
        } else {
            let t = s.drop_last();
            assert(ranges_sorted(t)) by {
                assert forall|i: int, j: int| 0 <= i <= j < t.len() implies range_le(
                    #[trigger] t[i],
                    #[trigger] t[j],
                ) by {
                    assert(range_le(s[i], s[j]));
                }
            }
            lemma_insert_pos(t, r);
            lemma_range_le(s.last(), r, r);
            assert forall|i: int| 0 <= i < insert_pos(s, r) implies range_le(#[trigger] s[i], r) by {
                assert(t[i] == s[i]);
            }
            assert forall|i: int| insert_pos(s, r) <= i < s.len() implies range_le(r, #[trigger] s[i])
                && !range_le(s[i], r) by {
                if i < t.len() {
                    assert(t[i] == s[i]);
                }
            }
        }
    }
}

proof fn lemma_insert_sorted(s: Seq<IpAddressRange>, r: IpAddressRange)
    requires
        ranges_sorted(s),
    ensures
        ranges_sorted(s.insert(insert_pos(s, r) as int, r)),
        s.insert(insert_pos(s, r) as int, r).to_multiset() == s.to_multiset().insert(r),
{
    lemma_insert_pos(s, r);
    let p = insert_pos(s, r) as int;
    let t = s.insert(p, r);
    assert forall|i: int, j: int| 0 <= i <= j < t.len() implies range_le(
        #[trigger] t[i],
        #[trigger] t[j],
    ) by {
        lemma_range_le(t[i], r, t[j]);
        if i < p {
            assert(t[i] == s[i]);
        } else if i > p {
            assert(t[i] == s[i - 1]);
        }
        if j < p {
            assert(t[j] == s[j]);
        } else if j > p {
            assert(t[j] == s[j - 1]);
        }
    }
    vstd::seq_lib::to_multiset_insert(s, p, r);
}

/// Sorting gives the same ranges, in order.
pub proof fn lemma_sorted_ranges(s: Seq<IpAddressRange>)
    ensures
        ranges_sorted(sorted_ranges(s)),
        sorted_ranges(s).len() == s.len(),
        sorted_ranges(s).to_multiset() == s.to_multiset(),
    decreases s.len(),
{
    if s.len() > 0 {
        let t = sorted_ranges(s.drop_last());
        lemma_sorted_ranges(s.drop_last());
        lemma_insert_sorted(t, s.last());
        lemma_insert_pos(t, s.last());
        assert(s =~= s.drop_last().push(s.last()));
        broadcast use vstd::seq_lib::group_to_multiset_ensures;

        assert(s.to_multiset() =~= s.drop_last().to_multiset().insert(s.last()));
    } else {
        assert(s =~= Seq::<IpAddressRange>::empty());
    }
}

/// A list that is already in order stays as it is.
pub proof fn lemma_sorted_fixpoint(s: Seq<IpAddressRange>)
    requires
        ranges_sorted(s),
    ensures
        sorted_ranges(s) == s,
    decreases s.len(),
{
    if s.len() > 0 {
        let t = s.drop_last();
        assert forall|i: int, j: int| 0 <= i <= j < t.len() implies range_le(
            #[trigger] t[i],
            #[trigger] t[j],
        ) by {
            assert(range_le(s[i], s[j]));
        }
        lemma_sorted_fixpoint(t);
        if t.len() > 0 {
            assert(range_le(s[s.len() - 2], s[s.len() - 1]));
        }
        assert(insert_pos(t, s.last()) == t.len());
        assert(t.insert(t.len() as int, s.last()) =~= s);
    } else {
        assert(s =~= Seq::<IpAddressRange>::empty());
    }
}

/// Ranges in wire order are sorted.
pub proof fn lemma_ordered_is_sorted(s: Seq<IpAddressRange>)
    requires
        ranges_ordered(s),
    ensures
        ranges_sorted(s),
    decreases s.len(),
{
    if s.len() > 0 {
        let t = s.drop_last();
        assert forall|i: int, j: int| 0 <= i && j == i + 1 && j < t.len() implies range_follows(
            #[trigger] t[i],
            #[trigger] t[j],
        ) by {
            assert(range_follows(s[i], s[j]));
        }
        lemma_ordered_is_sorted(t);
        assert forall|i: int, j: int| 0 <= i <= j < s.len() implies range_le(
            #[trigger] s[i],
            #[trigger] s[j],
        ) by {
            if j < t.len() {
                assert(range_le(t[i], t[j]));
            } else if i < j {
                assert(range_follows(s[j - 1], s[j]));
                assert(range_le(t[i], t[j - 1]));
                lemma_range_le(s[i], s[j - 1], s[j]);
            } else {
                lemma_range_le(s[i], s[i], s[i]);
            }
        }
    }
}

/// The range at the front of `s`, and its length. A range that ends before
/// it starts is refused.
pub open spec fn range_at(s: Seq<u8>) -> Result<(IpAddressRange, nat), DecodeError> {
    if s.len() == 0 {
        Err(DecodeError::Underflow)
    } else {
        match ip_at(s.skip(1), s[0]) {
            Err(e) => Err(e),
            Ok((start_ip, n)) => match ip_at(s.skip(1 + n as int), s[0]) {
                Err(e) => Err(e),
                Ok((end_ip, m)) => if !start_ip.spec_le(end_ip) {
                    Err(DecodeError::InvalidVarInt)
                } else if s.len() <= 1 + n + m {
                    Err(DecodeError::Underflow)
                } else {
                    Ok(
                        (
                            IpAddressRange {
                                ip_version: s[0],
                                start_ip,
                                end_ip,
                                ip_protocol: s[(1 + n + m) as int],
                            },
                            n + m + 2,
                        ),
                    )
                },
            },
        }
    }
}

/// All ranges of a payload, or the first error among them.
pub open spec fn range_list(s: Seq<u8>) -> Result<Seq<IpAddressRange>, DecodeError>
    decreases s.len(),
{
    if s.len() == 0 {
        Ok(Seq::empty())
    } else {
        match range_at(s) {
            Err(e) => Err(e),
            Ok((a, n)) => if 1 <= n <= s.len() {
                match range_list(s.skip(n as int)) {
                    Err(e) => Err(e),
                    Ok(rest) => Ok(seq![a] + rest),
                }
            } else {
                Err(DecodeError::Underflow)
            },
        }
    }
}

/// The ranges of an advertisement; ranges out of order are refused.
pub open spec fn advertisement_of(s: Seq<u8>) -> Result<Seq<IpAddressRange>, DecodeError> {
    match range_list(s) {
        Err(e) => Err(e),
        Ok(list) => if ranges_ordered(list) {
            Ok(list)
        } else {
            Err(DecodeError::InvalidVarInt)
        },
    }
}

/// The encoding of one range.
pub open spec fn range_bytes(r: IpAddressRange) -> Seq<u8> {
    seq![r.ip_version] + r.start_ip.spec_octets() + r.end_ip.spec_octets() + seq![r.ip_protocol]
}

/// The encoding of a list of ranges.
pub open spec fn range_payload(s: Seq<IpAddressRange>) -> Seq<u8>
    decreases s.len(),
{
    if s.len() == 0 {
        Seq::empty()
    } else {
        range_payload(s.drop_last()) + range_bytes(s.last())
    }
}

/// The length a range is announced with: the version field decides how long
/// its addresses count.
pub open spec fn range_len(r: IpAddressRange) -> nat {
    if r.ip_version == 4 {
        10
    } else {
        34
    }
}

/// The payload length that a capsule announces.
pub open spec fn ranges_len(s: Seq<IpAddressRange>) -> nat
    decreases s.len(),
{
    if s.len() == 0 {
        0
    } else {
        ranges_len(s.drop_last()) + range_len(s.last())
    }
}

impl IpAddressRange {
    /// A range that the wire format can carry.
    pub open spec fn wf(self) -> bool {
        &&& self.ip_version == self.start_ip.spec_version()
        &&& self.ip_version == self.end_ip.spec_version()
        &&& self.start_ip.spec_le(self.end_ip)
    }
}

/// Reading a range back.
pub proof fn lemma_range_roundtrip(r: IpAddressRange, rest: Seq<u8>)
    requires
        r.wf(),
    ensures
        range_at(range_bytes(r) + rest) == Ok::<(IpAddressRange, nat), DecodeError>(
            (r, range_bytes(r).len()),
        ),
        range_bytes(r).len() == range_len(r),
{
    let s = range_bytes(r) + rest;
    let a = r.start_ip.spec_octets();
    let b = r.end_ip.spec_octets();
    let tail = seq![r.ip_protocol] + rest;
    lemma_ip_roundtrip(r.start_ip, b + tail);
    lemma_ip_roundtrip(r.end_ip, tail);
    assert(s.skip(1) =~= a + (b + tail));
    assert(s.skip(1 + a.len() as int) =~= b + tail);
}

proof fn lemma_range_payload_front(s: Seq<IpAddressRange>)
    requires
        s.len() > 0,
    ensures
        range_payload(s) == range_bytes(s[0]) + range_payload(s.skip(1)),
    decreases s.len(),
{
    if s.len() == 1 {
        assert(s.skip(1) =~= Seq::<IpAddressRange>::empty());
        assert(s.drop_last() =~= Seq::<IpAddressRange>::empty());
    } else {
        lemma_range_payload_front(s.drop_last());
        assert(s.drop_last().skip(1) =~= s.skip(1).drop_last());
    }
    assert(range_payload(s) =~= range_bytes(s[0]) + range_payload(s.skip(1)));
}

proof fn lemma_ranges_len(s: Seq<IpAddressRange>)
    requires
        forall|i: int| 0 <= i < s.len() ==> (#[trigger] s[i]).wf(),
    ensures
        range_payload(s).len() == ranges_len(s),
    decreases s.len(),
{
    if s.len() > 0 {
        lemma_ranges_len(s.drop_last());
        lemma_range_roundtrip(s.last(), Seq::empty());
    }
}

/// The payload of carriable ranges decodes to those ranges, and is as long as
/// the capsule announces.
pub proof fn lemma_range_list_roundtrip(s: Seq<IpAddressRange>)
    requires
        forall|i: int| 0 <= i < s.len() ==> (#[trigger] s[i]).wf(),
    ensures
        range_list(range_payload(s)) == Ok::<Seq<IpAddressRange>, DecodeError>(s),
        range_payload(s).len() == ranges_len(s),
    decreases s.len(),
{
    if s.len() > 0 {
        lemma_ranges_len(s);
        lemma_range_payload_front(s);
        lemma_range_list_roundtrip(s.skip(1));
        let rest = range_payload(s.skip(1));
        lemma_range_roundtrip(s[0], rest);
        let n = range_bytes(s[0]).len();
        assert(range_payload(s).skip(n as int) =~= rest);
        assert(seq![s[0]] + s.skip(1) =~= s);
    } else {
        assert(s =~= Seq::<IpAddressRange>::empty());
    }
}

/// Whether `a` comes no later than `b` by (ip_version, ip_protocol, start_ip).
fn comes_no_later(a: &IpAddressRange, b: &IpAddressRange) -> (v: bool)
    ensures
        v == range_le(*a, *b),
{
    if a.ip_version != b.ip_version {
        a.ip_version < b.ip_version
    } else if a.ip_protocol != b.ip_protocol {
        a.ip_protocol < b.ip_protocol
    } else {
        a.start_ip.le(&b.start_ip)
    }
}

/// Sort ranges by (ip_version, ip_protocol, start_ip) per RFC 9484 §4.7.3.
pub(crate) fn sort_ranges(ranges: &Vec<IpAddressRange>) -> (out: Vec<IpAddressRange>)
    ensures
        out@ == sorted_ranges(ranges@),
{
    let mut out: Vec<IpAddressRange> = Vec::new();
    let mut i: usize = 0;
    assert(ranges@.take(0) =~= Seq::<IpAddressRange>::empty());
    while i < ranges.len()
        invariant
            i <= ranges@.len(),
            out@ == sorted_ranges(ranges@.take(i as int)),
        decreases ranges@.len() - i,
    {
        let r = ranges[i];
        let mut p: usize = out.len();
        assert(out@.take(p as int) =~= out@);
        while p > 0 && !comes_no_later(&out[p - 1], &r)
            invariant
                p <= out@.len(),
                insert_pos(out@, r) == insert_pos(out@.take(p as int), r),
            decreases p,
        {
            assert(out@.take(p as int).drop_last() =~= out@.take(p - 1));
            p = p - 1;
        }
        proof {
            if p > 0 {
                assert(out@.take(p as int).last() == out@[p - 1]);
            }
            assert(ranges@.take(i + 1).drop_last() =~= ranges@.take(i as int));
        }
        out.insert(p, r);
        i = i + 1;
    }
    assert(ranges@.take(i as int) =~= ranges@);
    out
}

/// Whether every range may follow the one before it.
fn follow_in_order(ranges: &Vec<IpAddressRange>) -> (v: bool)
    ensures
        v == ranges_ordered(ranges@),
{
    let mut k: usize = 1;
    while k < ranges.len()
        invariant
            1 <= k,
            forall|i: int, j: int|
                0 <= i && j == i + 1 && j < k && j < ranges@.len() ==> range_follows(
                    #[trigger] ranges@[i],
                    #[trigger] ranges@[j],
                ),
        decreases ranges@.len() - k,
    {
        let a = ranges[k - 1];
        let b = ranges[k];
        if !comes_no_later(&a, &b) || (comes_no_later(&b, &a) && b.end_ip.le(&a.end_ip)) {
            assert(!range_follows(ranges@[k - 1], ranges@[k as int]));
            return false;
        }
        k = k + 1;
    }
    true
}

fn decode_ip_address_range(buf: &mut &[u8]) -> (r: Result<IpAddressRange, DecodeError>)
    ensures
        match range_at(old(buf)@) {
            Ok((a, n)) => r == Ok::<IpAddressRange, DecodeError>(a) && 1 <= n <= old(buf)@.len()
                && final(buf)@ == old(buf)@.skip(n as int),
            Err(e) => r == Err::<IpAddressRange, DecodeError>(e),
        },
{
    let s: &[u8] = *buf;
    if s.len() == 0 {
        return Err(DecodeError::Underflow);
    }
    let ip_version: u8 = s[0];
    let mut rest: &[u8] = slice_subrange(s, 1, s.len());
    assert(rest@ =~= s@.skip(1));
    let start_ip = match decode_ip_address(&mut rest, ip_version) {
        Ok(ip) => ip,
        Err(e) => {
            return Err(e);
        },
    };
    let ghost n = ip_at(s@.skip(1), s@[0])->Ok_0.1;
    assert(rest@ =~= s@.skip(1 + n as int));
    let end_ip = match decode_ip_address(&mut rest, ip_version) {
        Ok(ip) => ip,
        Err(e) => {
            return Err(e);
        },
    };
    let ghost m = ip_at(s@.skip(1 + n as int), s@[0])->Ok_0.1;
    assert(rest@ =~= s@.skip((1 + n + m) as int));
    if !start_ip.le(&end_ip) {
        return Err(DecodeError::InvalidVarInt);
    }
    if rest.len() == 0 {
        return Err(DecodeError::Underflow);
    }
    let ip_protocol: u8 = rest[0];
    *buf = slice_subrange(rest, 1, rest.len());
    proof {
        assert(buf@ =~= s@.skip((n + m + 2) as int));
    }
    Ok(IpAddressRange { ip_version, start_ip, end_ip, ip_protocol })
}

fn encode_ip_address_range(range: &IpAddressRange, buf: &mut BytesMut)
    requires
        has_room(*old(buf), range_bytes(*range).len()),
    ensures
        buffered(*final(buf)) == buffered(*old(buf)) + range_bytes(*range),
{
    let mut out: Vec<u8> = Vec::new();
    out.push(range.ip_version);
    let mut start = range.start_ip.octets();
    out.append(&mut start);
    let mut end = range.end_ip.octets();
    out.append(&mut end);
    out.push(range.ip_protocol);
    assert(out@ =~= range_bytes(*range));
    append(buf, out.as_slice());
}

proof fn lemma_range_payload_take(s: Seq<IpAddressRange>, i: int)
    requires
        0 <= i < s.len(),
    ensures
        range_payload(s.take(i + 1)) == range_payload(s.take(i)) + range_bytes(s[i]),
        ranges_len(s.take(i + 1)) == ranges_len(s.take(i)) + range_len(s[i]),
        range_payload(s.take(i + 1)).len() <= range_payload(s).len(),
        ranges_len(s.take(i + 1)) <= ranges_len(s),
    decreases s.len() - i,
{
    assert(s.take(i + 1).drop_last() =~= s.take(i));
    if i + 1 < s.len() {
        lemma_range_payload_take(s, i + 1);
        assert(s.take(i + 2).drop_last() =~= s.take(i + 1));
    } else {
        assert(s.take(i + 1) =~= s);
    }
}

fn encode_sorted(sorted: &Vec<IpAddressRange>, buf: &mut BytesMut)
    requires
        has_room(*old(buf), range_payload(sorted@).len()),
    ensures
        buffered(*final(buf)) == buffered(*old(buf)) + range_payload(sorted@),
{
    let ghost s = sorted@;
    let mut i: usize = 0;
    assert(s.take(0) =~= Seq::<IpAddressRange>::empty());
    assert(buffered(*buf) + range_payload(s.take(0)) =~= buffered(*buf));
    while i < sorted.len()
        invariant
            i <= s.len(),
            s == sorted@,
            has_room(*old(buf), range_payload(s).len()),
            buffered(*buf) == buffered(*old(buf)) + range_payload(s.take(i as int)),
        decreases s.len() - i,
    {
        proof {
            lemma_range_payload_take(s, i as int);
        }
        encode_ip_address_range(&sorted[i], buf);
        proof {
            assert(buffered(*buf) =~= buffered(*old(buf)) + range_payload(s.take(i + 1)));
        }
        i = i + 1;
    }
    assert(s.take(i as int) =~= s);
}

fn sorted_payload_len(sorted: &Vec<IpAddressRange>) -> (len: usize)
    requires
        ranges_len(sorted@) <= usize::MAX,
    ensures
        len == ranges_len(sorted@),
{
    let ghost s = sorted@;
    let mut len: usize = 0;
    let mut i: usize = 0;
    assert(s.take(0) =~= Seq::<IpAddressRange>::empty());
    while i < sorted.len()
        invariant
            i <= s.len(),
            s == sorted@,
            ranges_len(s) <= usize::MAX,
            len == ranges_len(s.take(i as int)),
        decreases s.len() - i,
    {
        proof {
            lemma_range_payload_take(s, i as int);
        }
        // ip_version (1) + start_ip + end_ip (4 or 16 each) + ip_protocol (1)
        len = len + if sorted[i].ip_version == 4 {
            10
        } else {
            34
        };
        i = i + 1;
    }
    assert(s.take(i as int) =~= s);
    len
}

impl RouteAdvertisement {
    /// Decode a ROUTE_ADVERTISEMENT capsule payload (without the type/length envelope).
    pub fn decode(payload: &[u8]) -> (r: Result<Self, DecodeError>)
        ensures
            match advertisement_of(payload@) {
                Ok(list) => r is Ok && r->Ok_0.ip_address_ranges@ == list,
                Err(e) => r == Err::<Self, DecodeError>(e),
            },
    {
        let mut ip_address_ranges: Vec<IpAddressRange> = Vec::new();
        let mut rest: &[u8] = payload;
        proof {
            if let Ok(t) = range_list(rest@) {
                assert(ip_address_ranges@ + t =~= t);
            }
        }
        while rest.len() > 0
            invariant
                match range_list(rest@) {
                    Ok(t) => Ok::<Seq<IpAddressRange>, DecodeError>(ip_address_ranges@ + t),
                    Err(e) => Err(e),
                } == range_list(payload@),
            decreases rest@.len(),
        {
            let ghost done = ip_address_ranges@;
            match decode_ip_address_range(&mut rest) {
                Ok(range) => {
                    ip_address_ranges.push(range);
                    proof {
                        if let Ok(t) = range_list(rest@) {
                            assert(done + (seq![range] + t) =~= ip_address_ranges@ + t);
                        }
                    }
                },
                Err(e) => {
                    return Err(e);
                },
            }
        }
        proof {
            assert(ip_address_ranges@ + Seq::<IpAddressRange>::empty() =~= ip_address_ranges@);
        }
        if !follow_in_order(&ip_address_ranges) {
            return Err(DecodeError::InvalidVarInt);
        }
        Ok(RouteAdvertisement { ip_address_ranges })
    }

    /// Encode this ROUTE_ADVERTISEMENT as a complete capsule (type + length + payload).
    /// Ranges are sorted before encoding to guarantee the ordering invariant.
    pub fn encode(&self, buf: &mut BytesMut)
        requires
            ranges_len(sorted_ranges(self.ip_address_ranges@)) <= VARINT_MAX,
            ranges_len(sorted_ranges(self.ip_address_ranges@)) <= usize::MAX,
            has_room(*old(buf), 9 + range_payload(sorted_ranges(self.ip_address_ranges@)).len()),
        ensures
            buffered(*final(buf)) == buffered(*old(buf)) + varint_bytes(
                CAPSULE_ROUTE_ADVERTISEMENT,
            ) + varint_bytes(ranges_len(sorted_ranges(self.ip_address_ranges@)) as u64)
                + range_payload(sorted_ranges(self.ip_address_ranges@)),
    {
        let sorted = sort_ranges(&self.ip_address_ranges);
        let payload_len: usize = sorted_payload_len(&sorted);
        proof {
            lemma_varint_bytes(CAPSULE_ROUTE_ADVERTISEMENT);
            lemma_varint_bytes(payload_len as u64);
        }
        let _ = write_varint(buf, CAPSULE_ROUTE_ADVERTISEMENT);
        let _ = write_varint(buf, payload_len as u64);
        encode_sorted(&sorted, buf);
    }

    /// Encode only the payload (no type/length envelope).
    /// Ranges are sorted before encoding.
    pub fn encode_payload(&self, buf: &mut BytesMut)
        requires
            has_room(*old(buf), range_payload(sorted_ranges(self.ip_address_ranges@)).len()),
        ensures
            buffered(*final(buf)) == buffered(*old(buf)) + range_payload(
                sorted_ranges(self.ip_address_ranges@),
            ),
    {
        let sorted = sort_ranges(&self.ip_address_ranges);
        encode_sorted(&sorted, buf);
    }
}

/// A range on the wire: the version, the first and the last address in network
/// order, the protocol; the ranges of a payload stand one after another.
pub proof fn lemma_range_layout(s: Seq<IpAddressRange>, r: IpAddressRange)
    requires
        r.start_ip.spec_version() == r.ip_version,
        r.end_ip.spec_version() == r.ip_version,
    ensures
        ({
            let b = range_bytes(r);
            match (r.start_ip, r.end_ip) {
                (IpAddr::V4(x), IpAddr::V4(y)) => {
                    &&& b.len() == 10
                    &&& b[0] == 4
                    &&& b[1] * 0x100_0000 + b[2] * 0x1_0000 + b[3] * 256 + b[4] == x.bits
                    &&& b[5] * 0x100_0000 + b[6] * 0x1_0000 + b[7] * 256 + b[8] == y.bits
                    &&& b[9] == r.ip_protocol
                },
                (IpAddr::V6(x), IpAddr::V6(y)) => {
                    &&& b.len() == 34
                    &&& b[0] == 6
                    &&& be_value(b.subrange(1, 17)) == x.bits
                    &&& be_value(b.subrange(17, 33)) == y.bits
                    &&& b[33] == r.ip_protocol
                },
                _ => true,
            }
        }),
        range_payload(s.push(r)) == range_payload(s) + range_bytes(r),
        range_payload(Seq::empty()) == Seq::<u8>::empty(),
{
    assert(s.push(r).drop_last() =~= s);
    let b = range_bytes(r);
    lemma_prefix_layout(r.start_ip, 0);
    lemma_prefix_layout(r.end_ip, 0);
    let x = prefix_bytes(r.ip_version, r.start_ip, 0);
    let y = prefix_bytes(r.ip_version, r.end_ip, 0);
    match (r.start_ip, r.end_ip) {
        (IpAddr::V4(_), IpAddr::V4(_)) => {
            assert(r.start_ip.spec_octets().len() == 4);
            assert(r.end_ip.spec_octets().len() == 4);
            assert(b[1] == x[1] && b[2] == x[2] && b[3] == x[3] && b[4] == x[4]);
            assert(b[5] == y[1] && b[6] == y[2] && b[7] == y[3] && b[8] == y[4]);
        },
        (IpAddr::V6(_), IpAddr::V6(_)) => {
            assert(r.start_ip.spec_octets().len() == 16);
            assert(r.end_ip.spec_octets().len() == 16);
            assert(b.subrange(1, 17) =~= x.subrange(1, 17));
            assert(b.subrange(17, 33) =~= y.subrange(1, 17));
        },
        _ => {},
    }
}

/// A range is read exactly if its version is 4 or 6, all bytes are there, and
/// its first address is not behind its last; what is read is what was there.
pub proof fn lemma_range_read(s: Seq<u8>)
    ensures
        range_at(s) is Ok <==> s.len() > 0 && (s[0] == 4 && s.len() >= 10 && s[1] * 0x100_0000
            + s[2] * 0x1_0000 + s[3] * 256 + s[4] <= s[5] * 0x100_0000 + s[6] * 0x1_0000 + s[7]
            * 256 + s[8] || s[0] == 6 && s.len() >= 34 && be_value(s.subrange(1, 17)) <= be_value(
            s.subrange(17, 33),
        )),
        range_at(s) matches Ok((r, n)) ==> {
            &&& r.start_ip.spec_version() == r.ip_version
            &&& r.end_ip.spec_version() == r.ip_version
            &&& n <= s.len()
            &&& s.take(n as int) == range_bytes(r)
        },
{
    if s.len() > 0 && s[0] == 4 && s.len() >= 10 {
        let t = s.skip(1);
        let u = s.skip(5);
        crate::bigendian::lemma_pow256_values();
        crate::bigendian::lemma_be_value_4(t, 0);
        crate::bigendian::lemma_be_bytes_of_value(t.subrange(0, 4));
        crate::bigendian::lemma_be_value_bound(t.subrange(0, 4));
        crate::bigendian::lemma_be_value_4(u, 0);
        crate::bigendian::lemma_be_bytes_of_value(u.subrange(0, 4));
        crate::bigendian::lemma_be_value_bound(u.subrange(0, 4));
        assert(t[0] == s[1] && t[1] == s[2] && t[2] == s[3] && t[3] == s[4]);
        assert(u[0] == s[5] && u[1] == s[6] && u[2] == s[7] && u[3] == s[8]);
        if let Ok((r, n)) = range_at(s) {
            assert(r.start_ip.spec_octets() == t.subrange(0, 4));
            assert(r.end_ip.spec_octets() == u.subrange(0, 4));
            assert(s.take(10) =~= range_bytes(r));
        }
    }
    if s.len() > 0 && s[0] == 6 && s.len() >= 34 {
        let t = s.skip(1).take(16);
        let u = s.skip(17).take(16);
        assert(t =~= s.subrange(1, 17));
        assert(u =~= s.subrange(17, 33));
        crate::bigendian::lemma_pow256_values();
        crate::bigendian::lemma_be_value_bound(t);
        crate::bigendian::lemma_be_value_bound(u);
        crate::bigendian::lemma_be_bytes_of_value(t);
        crate::bigendian::lemma_be_bytes_of_value(u);
        if let Ok((r, n)) = range_at(s) {
            assert(r.start_ip.spec_octets() == t);
            assert(r.end_ip.spec_octets() == u);
            assert(s.take(34) =~= range_bytes(r));
        }
    }
}

/// The order of an advertisement, in numbers: by version, then protocol, then
/// first address, then last, and never the same twice.
pub proof fn lemma_order(a: IpAddressRange, b: IpAddressRange)
    requires
        a.start_ip.spec_version() == a.ip_version,
        a.end_ip.spec_version() == a.ip_version,
        b.start_ip.spec_version() == b.ip_version,
        b.end_ip.spec_version() == b.ip_version,
    ensures
        ranges_ordered(seq![a, b]) <==> a.ip_version < b.ip_version || (a.ip_version == b.ip_version
            && (a.ip_protocol < b.ip_protocol || (a.ip_protocol == b.ip_protocol && (
        a.start_ip.spec_value() < b.start_ip.spec_value() || (a.start_ip.spec_value()
            == b.start_ip.spec_value() && a.end_ip.spec_value() < b.end_ip.spec_value()))))),
{
    let s = seq![a, b];
    assert(s[0] == a && s[1] == b);
    assert(ranges_ordered(s) <==> range_follows(a, b));
}

/// A payload is read range by range: what one stands for comes first, then what
/// the rest stands for, and a fault anywhere in the rest is a fault of the
/// whole.
pub proof fn lemma_range_list_step(a: IpAddressRange, rest: Seq<u8>, s: Seq<u8>)
    requires
        a.wf(),
    ensures
        range_list(range_bytes(a) + rest) == match range_list(rest) {
            Ok(list) => Ok::<Seq<IpAddressRange>, DecodeError>(seq![a] + list),
            Err(e) => Err::<Seq<IpAddressRange>, DecodeError>(e),
        },
        range_list(Seq::empty()) == Ok::<Seq<IpAddressRange>, DecodeError>(Seq::empty()),
        s.len() > 0 && range_at(s) is Err ==> range_list(s) is Err,
{
    let b = range_bytes(a);
    lemma_range_roundtrip(a, rest);
    assert((b + rest).skip(b.len() as int) =~= rest);
}

/// An advertisement is accepted exactly if its ranges can be read and each
/// follows the one before.
pub proof fn lemma_advertisement(s: Seq<u8>, list: Seq<IpAddressRange>, r: IpAddressRange)
    ensures
        advertisement_of(s) is Ok <==> range_list(s) is Ok && ranges_ordered(range_list(s)->Ok_0),
        advertisement_of(s) is Ok ==> advertisement_of(s) == range_list(s),
        ranges_ordered(Seq::empty()),
        ranges_ordered(list.push(r)) <==> ranges_ordered(list) && (list.len() == 0
            || ranges_ordered(seq![list.last(), r])),
{
    let t = list.push(r);
    let n = list.len() as int;
    assert(forall|i: int| 0 <= i < n ==> #[trigger] t[i] == list[i]);
    assert(t[n] == r);
    if list.len() > 0 {
        let p = seq![list.last(), r];
        assert(p[0] == list[n - 1] && p[1] == r);
        assert(ranges_ordered(p) <==> range_follows(list[n - 1], r));
        if ranges_ordered(t) {
            assert(range_follows(t[n - 1], t[n]));
            assert forall|i: int, j: int| 0 <= i && j == i + 1 && j < list.len() implies
                range_follows(#[trigger] list[i], #[trigger] list[j]) by {
                assert(range_follows(t[i], t[j]));
            }
        }
        if ranges_ordered(list) && range_follows(list[n - 1], r) {
            assert forall|i: int, j: int| 0 <= i && j == i + 1 && j < t.len() implies
                range_follows(#[trigger] t[i], #[trigger] t[j]) by {
                if j < n {
                    assert(range_follows(list[i], list[j]));
                }
            }
        }
    }
}

} // verus!
