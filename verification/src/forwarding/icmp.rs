//! ICMP error generation (RFC 9484 §7.2: the proxy behaves like a router,
//! so undeliverable packets earn ICMP errors back through the tunnel).
//!
//! Formats: RFC 792 (ICMPv4), RFC 4443 (ICMPv6), RFC 1191 (v4 PMTU).

use vstd::prelude::*;
use vstd::slice::slice_subrange;

use crate::bigendian::{be_bytes, lemma_be_bytes_len, push_u16, push_u32};
use crate::error::ForwardingError;
use crate::forwarding::checksum::{checksum_verifies, lemma_word_sum_bound};
use crate::forwarding::packet::{
    ihl_of, ipv4_header, ipv6_header, lemma_built_checksums, lemma_header_v4_layout,
    lemma_header_v6_layout, lemma_message_v6_verifies, lemma_v4_packet_parses,
    lemma_v6_packet_parses, make_message_v4, make_message_v6, make_v4_header, make_v6_header,
    message_checksum_v6, message_v4, message_v6, message_with, packet_info, pseudo_v6, v4_at,
    v6_at, PacketInfo,
};
use crate::net::{IpAddr, Ipv4Addr, Ipv6Addr};

verus! {

/// Which error to report about a dropped packet.
#[derive(Debug, Clone, Copy, PartialEq, Eq, Structural)]
pub enum IcmpErrorKind {
    /// TTL / Hop Limit reached zero in transit.
    TimeExceeded,
    /// No route to the destination.
    NoRoute,
    /// Destination outside the advertised routes (split-tunnel policy).
    AdminProhibited,
    /// Packet exceeds the tunnel MTU.
    PacketTooBig { mtu: u16 },
}

/// The proxy-side addresses ICMP errors originate from.
#[derive(Debug, Clone, Copy)]
pub struct IcmpSource {
    pub v4: Ipv4Addr,
    pub v6: Option<Ipv6Addr>,
}

/// An ICMP error must go to a real unicast sender: not to an unspecified,
/// loopback (127/8, ::1), multicast (224/4, ff00::/8) or broadcast address.
pub open spec fn error_target(addr: IpAddr) -> bool {
    match addr {
        IpAddr::V4(a) => {
            &&& a.bits != 0
            &&& a.bits / 0x100_0000 != 127
            &&& a.bits / 0x1000_0000 != 14
            &&& a.bits != 0xffff_ffff
        },
        IpAddr::V6(a) => {
            &&& a.bits != 0
            &&& a.bits != 1
            &&& a.bits / 0x0100_0000_0000_0000_0000_0000_0000_0000 != 0xff
        },
    }
}

/// The next-hop MTU where ICMPv4 carries it (RFC 1191).
pub open spec fn mtu_field_v4(mtu: u16) -> Seq<u8> {
    seq![0u8, 0u8] + be_bytes(mtu as nat, 2)
}

/// The MTU where ICMPv6 carries it.
pub open spec fn mtu_field_v6(mtu: u16) -> Seq<u8> {
    be_bytes(mtu as nat, 4)
}

pub open spec fn empty_field() -> Seq<u8> {
    seq![0u8, 0u8, 0u8, 0u8]
}

/// Type, code and rest of the ICMPv4 header for an error.
pub open spec fn error_v4_fields(kind: IcmpErrorKind) -> (u8, u8, Seq<u8>) {
    match kind {
        IcmpErrorKind::TimeExceeded => (11, 0, empty_field()),
        IcmpErrorKind::NoRoute => (3, 0, empty_field()),
        IcmpErrorKind::AdminProhibited => (3, 13, empty_field()),
        IcmpErrorKind::PacketTooBig { mtu } => (3, 4, mtu_field_v4(mtu)),
    }
}

/// Type, code and rest of the ICMPv6 header for an error.
pub open spec fn error_v6_fields(kind: IcmpErrorKind) -> (u8, u8, Seq<u8>) {
    match kind {
        IcmpErrorKind::TimeExceeded => (3, 0, empty_field()),
        IcmpErrorKind::NoRoute => (1, 0, empty_field()),
        IcmpErrorKind::AdminProhibited => (1, 1, empty_field()),
        IcmpErrorKind::PacketTooBig { mtu } => (2, 0, mtu_field_v6(mtu)),
    }
}

/// An IPv4 packet that is itself an ICMP error.
pub open spec fn is_error_v4(s: Seq<u8>) -> bool {
    s[9] == 1 && s.len() > ihl_of(s) && (s[ihl_of(s) as int] == 3 || s[ihl_of(s) as int] == 4
        || s[ihl_of(s) as int] == 5 || s[ihl_of(s) as int] == 11 || s[ihl_of(s) as int] == 12)
}

/// An IPv6 packet that is itself an ICMPv6 error: their types are below 128
/// (RFC 4443 §2.1).
pub open spec fn is_error_v6(s: Seq<u8>) -> bool {
    s[6] == 58 && s.len() > 40 && s[40] < 128
}

/// An IPv4 packet that may be answered with an error.
pub open spec fn answerable_v4(s: Seq<u8>) -> bool {
    &&& s.len() >= 20
    &&& 20 <= ihl_of(s) <= s.len()
    &&& error_target(IpAddr::V4(v4_at(s, 12)))
    &&& !is_error_v4(s)
}

/// An IPv6 packet that may be answered with an error.
pub open spec fn answerable_v6(s: Seq<u8>) -> bool {
    &&& s.len() >= 40
    &&& error_target(IpAddr::V6(v6_at(s, 8)))
    &&& !is_error_v6(s)
}

/// What of an invoking packet an error quotes: its header and 8 bytes more,
/// as far as they are there.
pub open spec fn quoted(s: Seq<u8>, header: nat) -> Seq<u8> {
    if s.len() <= header + 8 {
        s
    } else {
        s.take((header + 8) as int)
    }
}

/// The ICMP error about an IPv4 packet, if it may be answered.
pub open spec fn error_about_v4(
    kind: IcmpErrorKind,
    gateway: Ipv4Addr,
    s: Seq<u8>,
) -> Option<Seq<u8>> {
    if !answerable_v4(s) {
        None
    } else {
        let q = quoted(s, ihl_of(s));
        let (t, code, rest) = error_v4_fields(kind);
        Some(
            ipv4_header(28 + q.len(), 64, 1, gateway, v4_at(s, 12)) + message_v4(t, code, rest, q),
        )
    }
}

/// The ICMPv6 error about an IPv6 packet, if it may be answered.
pub open spec fn error_about_v6(
    kind: IcmpErrorKind,
    gateway: Ipv6Addr,
    s: Seq<u8>,
) -> Option<Seq<u8>> {
    if !answerable_v6(s) {
        None
    } else {
        let q = quoted(s, 40);
        let (t, code, rest) = error_v6_fields(kind);
        Some(
            ipv6_header(8 + q.len(), 58, 64, gateway, v6_at(s, 8)) + message_v6(
                gateway,
                v6_at(s, 8),
                t,
                code,
                rest,
                q,
            ),
        )
    }
}

/// The error about a packet of either family.
pub open spec fn error_about(
    kind: IcmpErrorKind,
    source: IcmpSource,
    s: Seq<u8>,
) -> Option<Seq<u8>> {
    if s.len() == 0 {
        None
    } else if s[0] / 16 == 4 {
        error_about_v4(kind, source.v4, s)
    } else if s[0] / 16 == 6 {
        match source.v6 {
            None => None,
            Some(gateway) => error_about_v6(kind, gateway, s),
        }
    } else {
        None
    }
}

/// The four-byte field of every error.
proof fn lemma_error_fields(kind: IcmpErrorKind)
    ensures
        error_v4_fields(kind).2.len() == 4,
        error_v6_fields(kind).2.len() == 4,
{
    if let IcmpErrorKind::PacketTooBig { mtu } = kind {
        lemma_mtu_fields(mtu);
    }
}

proof fn lemma_mtu_fields(mtu: u16)
    ensures
        mtu_field_v4(mtu).len() == 4,
        mtu_field_v6(mtu).len() == 4,
{
    lemma_be_bytes_len(mtu as nat, 2);
    lemma_be_bytes_len(mtu as nat, 4);
}

/// The length of a message with a four-byte field.
proof fn lemma_message_len(t: u8, code: u8, checksum: u16, rest: Seq<u8>, body: Seq<u8>)
    requires
        rest.len() == 4,
    ensures
        message_with(t, code, checksum, rest, body).len() == 8 + body.len(),
        message_with(t, code, checksum, rest, body)[0] == t,
        message_with(t, code, checksum, rest, body).skip(8) == body,
{
    lemma_be_bytes_len(checksum as nat, 2);
    assert(message_with(t, code, checksum, rest, body).skip(8) =~= body);
}

/// An error about an IPv4 packet is a valid packet from the gateway to the
/// sender of that packet, whose checksums verify, and it is never itself
/// answered.
pub proof fn lemma_error_v4_valid(
    kind: IcmpErrorKind,
    gateway: Ipv4Addr,
    s: Seq<u8>,
    again: IcmpErrorKind,
    other: Ipv4Addr,
)
    requires
        error_about_v4(kind, gateway, s) is Some,
    ensures
        ({
            let e = error_about_v4(kind, gateway, s).unwrap();
            &&& packet_info(e) == Ok::<PacketInfo, ForwardingError>(
                PacketInfo {
                    version: 4,
                    src: IpAddr::V4(gateway),
                    dst: IpAddr::V4(v4_at(s, 12)),
                    protocol: 1,
                },
            )
            &&& checksum_verifies(e.take(20))
            &&& checksum_verifies(e.skip(20))
            &&& e.skip(28) == quoted(s, ihl_of(s))
            &&& error_about_v4(again, other, e) is None
        }),
{
    let q = quoted(s, ihl_of(s));
    let (t, code, rest) = error_v4_fields(kind);
    lemma_error_fields(kind);
    let src = v4_at(s, 12);
    let body = message_v4(t, code, rest, q);
    lemma_message_v4_shape(t, code, rest, q);
    lemma_v4_packet_parses(64, 1, gateway, src, body);
    lemma_built_checksums(28 + q.len(), 64, 1, gateway, src, t, code, rest, q);
    let e = error_about_v4(kind, gateway, s).unwrap();
    assert(e.take(20) =~= ipv4_header(28 + q.len(), 64, 1, gateway, src));
    assert(e[20] == body[0]);
    assert(e.skip(28) =~= e.skip(20).skip(8));
}

proof fn lemma_message_v4_shape(t: u8, code: u8, rest: Seq<u8>, body: Seq<u8>)
    requires
        rest.len() == 4,
    ensures
        message_v4(t, code, rest, body).len() == 8 + body.len(),
        message_v4(t, code, rest, body)[0] == t,
        message_v4(t, code, rest, body).skip(8) == body,
{
    let c = crate::forwarding::checksum::checksum_of(message_with(t, code, 0, rest, body));
    lemma_message_len(t, code, c, rest, body);
}

proof fn lemma_message_v6_shape(
    src: Ipv6Addr,
    dst: Ipv6Addr,
    t: u8,
    code: u8,
    rest: Seq<u8>,
    body: Seq<u8>,
)
    requires
        rest.len() == 4,
    ensures
        message_v6(src, dst, t, code, rest, body).len() == 8 + body.len(),
        message_v6(src, dst, t, code, rest, body)[0] == t,
        message_v6(src, dst, t, code, rest, body).skip(8) == body,
{
    let c = message_checksum_v6(src, dst, message_with(t, code, 0, rest, body));
    lemma_message_len(t, code, c, rest, body);
}

/// An error about an IPv6 packet is a valid packet from the gateway to the
/// sender of that packet, whose checksum verifies, and it is never itself
/// answered.
pub proof fn lemma_error_v6_valid(
    kind: IcmpErrorKind,
    gateway: Ipv6Addr,
    s: Seq<u8>,
    again: IcmpErrorKind,
    other: Ipv6Addr,
)
    requires
        error_about_v6(kind, gateway, s) is Some,
    ensures
        ({
            let e = error_about_v6(kind, gateway, s).unwrap();
            &&& packet_info(e) == Ok::<PacketInfo, ForwardingError>(
                PacketInfo {
                    version: 6,
                    src: IpAddr::V6(gateway),
                    dst: IpAddr::V6(v6_at(s, 8)),
                    protocol: 58,
                },
            )
            &&& message_checksum_v6(gateway, v6_at(s, 8), e.skip(40)) == 0
            &&& e.skip(48) == quoted(s, 40)
            &&& error_about_v6(again, other, e) is None
        }),
{
    let q = quoted(s, 40);
    let (t, code, rest) = error_v6_fields(kind);
    lemma_error_fields(kind);
    let src = v6_at(s, 8);
    let body = message_v6(gateway, src, t, code, rest, q);
    lemma_message_v6_shape(gateway, src, t, code, rest, q);
    lemma_v6_packet_parses(58, 64, gateway, src, body);
    lemma_message_v6_verifies(gateway, src, t, code, rest, q);
    let e = error_about_v6(kind, gateway, s).unwrap();
    assert(e[40] == body[0]);
    assert(e.skip(48) =~= e.skip(40).skip(8));
}

/// Build an ICMP error packet for `original`, or `None` when no error must
/// be sent (originals that are themselves ICMP errors, bad sources, or a
/// missing v6 gateway).
pub fn build_icmp_error(kind: IcmpErrorKind, source: IcmpSource, original: &[u8]) -> (r: Option<
    Vec<u8>,
>)
    ensures
        match error_about(kind, source, original@) {
            Some(e) => r matches Some(p) && p@ == e,
            None => r is None,
        },
{
    if original.len() == 0 {
        return None;
    }
    match original[0] / 16 {
        4 => build_v4_error(kind, source.v4, original),
        6 => match source.v6 {
            Some(gateway) => build_v6_error(kind, gateway, original),
            None => None,
        },
        _ => None,
    }
}

/// Length of the IPv4 header in bytes.
fn header_len(s: &[u8]) -> (n: usize)
    requires
        s@.len() > 0,
    ensures
        n == ihl_of(s@),
{
    (s[0] % 16) as usize * 4
}

fn blank_field() -> (v: Vec<u8>)
    ensures
        v@ == empty_field(),
{
    let mut v: Vec<u8> = Vec::new();
    v.push(0);
    v.push(0);
    v.push(0);
    v.push(0);
    assert(v@ =~= empty_field());
    v
}

fn mtu_bytes_v4(mtu: u16) -> (v: Vec<u8>)
    ensures
        v@ == mtu_field_v4(mtu),
{
    let mut v: Vec<u8> = Vec::new();
    v.push(0);
    v.push(0);
    push_u16(&mut v, mtu);
    assert(v@ =~= mtu_field_v4(mtu));
    v
}

fn mtu_bytes_v6(mtu: u16) -> (v: Vec<u8>)
    ensures
        v@ == mtu_field_v6(mtu),
{
    let mut v: Vec<u8> = Vec::new();
    push_u32(&mut v, mtu as u32);
    assert(v@ =~= mtu_field_v6(mtu));
    v
}

/// Whether the message at the end of an IPv4 header reports an error.
fn reports_error_v4(original: &[u8], ihl: usize) -> (v: bool)
    requires
        original@.len() >= 20,
        ihl == ihl_of(original@),
    ensures
        v == is_error_v4(original@),
{
    if original[9] == 1 && original.len() > ihl {
        let t: u8 = original[ihl];
        t == 3 || t == 4 || t == 5 || t == 11 || t == 12
    } else {
        false
    }
}

/// Total length of an error packet, as its 16-bit field takes it.
fn field16(n: usize) -> (v: u16)
    requires
        n < 0x1_0000,
    ensures
        v == n,
{
    n as u16
}

fn build_v4_error(kind: IcmpErrorKind, gateway: Ipv4Addr, original: &[u8]) -> (r: Option<Vec<u8>>)
    ensures
        match error_about_v4(kind, gateway, original@) {
            Some(e) => r matches Some(p) && p@ == e,
            None => r is None,
        },
{
    let n: usize = original.len();
    if n < 20 {
        return None;
    }
    let ihl: usize = header_len(original);
    if ihl < 20 || n < ihl {
        return None;
    }
    let orig_src = Ipv4Addr::read(original, 12);
    if !valid_error_target(&IpAddr::V4(orig_src)) {
        return None;
    }
    // Never answer an ICMP error with another (RFC 792 / RFC 1122 §3.2.2).
    if reports_error_v4(original, ihl) {
        return None;
    }
    let (t, code, rest): (u8, u8, Vec<u8>) = match kind {
        IcmpErrorKind::TimeExceeded => (11, 0, blank_field()),
        IcmpErrorKind::NoRoute => (3, 0, blank_field()),
        IcmpErrorKind::AdminProhibited => (3, 13, blank_field()),
        // fragmentation needed + next-hop MTU
        IcmpErrorKind::PacketTooBig { mtu } => (3, 4, mtu_bytes_v4(mtu)),
    };
    // Quote the invoking IP header + 8 bytes of its payload.
    let quote: &[u8] = quote_of(original, ihl);
    proof {
        lemma_error_fields(kind);
        lemma_message_len(t, code, 0, rest@, quote@);
        lemma_word_sum_bound(message_with(t, code, 0, rest@, quote@));
    }
    let mut packet = make_v4_header(field16(28 + quote.len()), 64, 1, &gateway, &orig_src);
    let mut message = make_message_v4(t, code, rest.as_slice(), quote);
    packet.append(&mut message);
    Some(packet)
}

fn quote_of(original: &[u8], header: usize) -> (q: &[u8])
    requires
        header <= 60,
        header <= original@.len(),
    ensures
        q@ == quoted(original@, header as nat),
        q@.len() <= 68,
{
    let n: usize = original.len();
    if n <= header + 8 {
        original
    } else {
        let q = slice_subrange(original, 0, header + 8);
        assert(q@ =~= original@.take(header + 8));
        q
    }
}

fn build_v6_error(kind: IcmpErrorKind, gateway: Ipv6Addr, original: &[u8]) -> (r: Option<Vec<u8>>)
    ensures
        match error_about_v6(kind, gateway, original@) {
            Some(e) => r matches Some(p) && p@ == e,
            None => r is None,
        },
{
    let n: usize = original.len();
    if n < 40 {
        return None;
    }
    let orig_src = Ipv6Addr::read(original, 8);
    if !valid_error_target(&IpAddr::V6(orig_src)) {
        return None;
    }
    // ICMPv6 error types are < 128 (RFC 4443 §2.1); never answer one.
    if original[6] == 58 && n > 40 && original[40] < 128 {
        return None;
    }
    let (t, code, rest): (u8, u8, Vec<u8>) = match kind {
        IcmpErrorKind::TimeExceeded => (3, 0, blank_field()),
        IcmpErrorKind::NoRoute => (1, 0, blank_field()),
        IcmpErrorKind::AdminProhibited => (1, 1, blank_field()),
        IcmpErrorKind::PacketTooBig { mtu } => (2, 0, mtu_bytes_v6(mtu)),
    };
    // Quote the invoking header + 8 bytes; total stays far below 1280.
    let quote: &[u8] = quote_of(original, 40);
    proof {
        lemma_error_fields(kind);
        lemma_message_len(t, code, 0, rest@, quote@);
        lemma_pseudo_len(gateway, orig_src, 4 + rest@.len() + quote@.len());
        lemma_word_sum_bound(
            pseudo_v6(gateway, orig_src, 4 + rest@.len() + quote@.len()) + message_with(
                t,
                code,
                0,
                rest@,
                quote@,
            ),
        );
    }
    let mut packet = make_v6_header(field16(8 + quote.len()), 58, 64, &gateway, &orig_src);
    let mut message = make_message_v6(&gateway, &orig_src, t, code, rest.as_slice(), quote);
    packet.append(&mut message);
    Some(packet)
}

proof fn lemma_pseudo_len(src: Ipv6Addr, dst: Ipv6Addr, len: nat)
    ensures
        pseudo_v6(src, dst, len).len() == 40,
{
    lemma_be_bytes_len(src.bits as nat, 16);
    lemma_be_bytes_len(dst.bits as nat, 16);
    lemma_be_bytes_len(len, 4);
}

/// An ICMP error must go to a real unicast sender.
fn valid_error_target(addr: &IpAddr) -> (v: bool)
    ensures
        v == error_target(*addr),
{
    match addr {
        IpAddr::V4(a) => a.bits != 0 && a.bits / 0x100_0000 != 127 && a.bits / 0x1000_0000 != 14
            && a.bits != 0xffff_ffff,
        IpAddr::V6(a) => a.bits != 0 && a.bits != 1 && a.bits
            / 0x0100_0000_0000_0000_0000_0000_0000_0000 != 0xff,
    }
}

/// Whom an error may go to, by address: not 0.0.0.0, 127.0.0.0 to
/// 127.255.255.255, 224.0.0.0 to 239.255.255.255 or 255.255.255.255, and not
/// `::`, `::1` or anything from ff00:: on.
pub proof fn lemma_error_targets(addr: IpAddr)
    ensures
        error_target(addr) <==> match addr {
            IpAddr::V4(a) => a.bits != 0 && !(0x7f00_0000 <= a.bits < 0x8000_0000) && !(0xe000_0000
                <= a.bits < 0xf000_0000) && a.bits != 0xffff_ffff,
            IpAddr::V6(a) => 1 < a.bits < 0xff00_0000_0000_0000_0000_0000_0000_0000,
        },
{
}

proof fn lemma_quote(s: Seq<u8>, header: nat)
    ensures
        quoted(s, header) == s.take(quoted(s, header).len() as int),
{
}

proof fn lemma_mtu_told(mtu: u16)
    ensures
        mtu_field_v4(mtu).len() == 4,
        mtu_field_v4(mtu)[2] * 256 + mtu_field_v4(mtu)[3] == mtu,
        mtu_field_v6(mtu).len() == 4,
        mtu_field_v6(mtu)[0] == 0,
        mtu_field_v6(mtu)[1] == 0,
        mtu_field_v6(mtu)[2] * 256 + mtu_field_v6(mtu)[3] == mtu,
{
    lemma_be_bytes_len(mtu as nat, 2);
    lemma_be_bytes_len(mtu as nat, 4);
    reveal_with_fuel(be_bytes, 5);
}

proof fn lemma_message_v4_fields(t: u8, code: u8, rest: Seq<u8>, body: Seq<u8>)
    requires
        rest.len() == 4,
    ensures
        ({
            let m = message_v4(t, code, rest, body);
            &&& m.len() == 8 + body.len()
            &&& m[0] == t && m[1] == code
            &&& m[4] == rest[0] && m[5] == rest[1] && m[6] == rest[2] && m[7] == rest[3]
        }),
{
    let c = crate::forwarding::checksum::checksum_of(message_with(t, code, 0, rest, body));
    lemma_be_bytes_len(c as nat, 2);
}

proof fn lemma_message_v6_fields(
    src: Ipv6Addr,
    dst: Ipv6Addr,
    t: u8,
    code: u8,
    rest: Seq<u8>,
    body: Seq<u8>,
)
    requires
        rest.len() == 4,
    ensures
        ({
            let m = message_v6(src, dst, t, code, rest, body);
            &&& m.len() == 8 + body.len()
            &&& m[0] == t && m[1] == code
            &&& m[4] == rest[0] && m[5] == rest[1] && m[6] == rest[2] && m[7] == rest[3]
        }),
{
    let c = message_checksum_v6(src, dst, message_with(t, code, 0, rest, body));
    lemma_be_bytes_len(c as nat, 2);
}

/// An IPv4 packet is answered exactly if its header is whole, its sender may
/// be answered, and it is not itself an error (types 3, 4, 5, 11, 12). The
/// answer has the type and code of the error, the MTU where the error tells
/// one, and quotes the header and eight bytes more.
pub proof fn lemma_error_v4(kind: IcmpErrorKind, source: IcmpSource, s: Seq<u8>)
    requires
        s.len() > 0,
        s[0] / 16 == 4,
    ensures
        ({
            let ihl = (s[0] % 16) * 4;
            &&& error_about(kind, source, s) is Some <==> {
                &&& s.len() >= 20
                &&& 20 <= ihl <= s.len()
                &&& error_target(IpAddr::V4(v4_at(s, 12)))
                &&& !(s[9] == 1 && s.len() > ihl && (s[ihl] == 3 || s[ihl] == 4 || s[ihl] == 5
                    || s[ihl] == 11 || s[ihl] == 12))
            }
            &&& error_about(kind, source, s) matches Some(e) ==> {
                &&& e.len() == 28 + if s.len() <= ihl + 8 {
                    s.len() - 0
                } else {
                    ihl + 8
                }
                &&& e.skip(28) == s.take(e.len() - 28)
                &&& e[0] == 0x45
                &&& e[2] * 256 + e[3] == e.len()
                &&& e[8] == 64
                &&& checksum_verifies(e.take(20))
                &&& checksum_verifies(e.skip(20))
                &&& packet_info(e) == Ok::<PacketInfo, ForwardingError>(
                    PacketInfo {
                        version: 4,
                        src: IpAddr::V4(source.v4),
                        dst: IpAddr::V4(v4_at(s, 12)),
                        protocol: 1,
                    },
                )
                &&& match kind {
                    IcmpErrorKind::TimeExceeded => e[20] == 11 && e[21] == 0,
                    IcmpErrorKind::NoRoute => e[20] == 3 && e[21] == 0,
                    IcmpErrorKind::AdminProhibited => e[20] == 3 && e[21] == 13,
                    IcmpErrorKind::PacketTooBig { mtu } => e[20] == 3 && e[21] == 4 && e[26] * 256
                        + e[27] == mtu,
                }
            }
        }),
{
    if let Some(e) = error_about(kind, source, s) {
        lemma_error_v4_valid(kind, source.v4, s, kind, source.v4);
        let q = quoted(s, ihl_of(s));
        let (t, code, rest) = error_v4_fields(kind);
        lemma_error_fields(kind);
        lemma_message_v4_shape(t, code, rest, q);
        let body = message_v4(t, code, rest, q);
        let header = ipv4_header(28 + q.len(), 64, 1, source.v4, v4_at(s, 12));
        lemma_v4_packet_parses(64, 1, source.v4, v4_at(s, 12), body);
        lemma_header_v4_layout(28 + q.len(), 64, 1, source.v4, v4_at(s, 12));
        assert(e[0] == header[0] && e[2] == header[2] && e[3] == header[3] && e[8] == header[8]);
        lemma_message_v4_fields(t, code, rest, q);
        assert(e[20] == body[0] && e[21] == body[1] && e[26] == body[6] && e[27] == body[7]);
        assert(body[1] == code && body[6] == rest[2] && body[7] == rest[3]);
        if let IcmpErrorKind::PacketTooBig { mtu } = kind {
            lemma_mtu_told(mtu);
        }
        lemma_quote(s, ihl_of(s));
    }
}

/// An IPv6 packet is answered exactly if there is a gateway to answer, its
/// header is whole, its sender may be answered, and it is not itself an error
/// (a type below 128). The answer has the type and code of the error, the MTU
/// where the error tells one, and quotes the header and eight bytes more.
pub proof fn lemma_error_v6(kind: IcmpErrorKind, source: IcmpSource, s: Seq<u8>)
    requires
        s.len() > 0,
        s[0] / 16 == 6,
    ensures
        error_about(kind, source, s) is Some <==> {
            &&& source.v6 is Some
            &&& s.len() >= 40
            &&& error_target(IpAddr::V6(v6_at(s, 8)))
            &&& !(s[6] == 58 && s.len() > 40 && s[40] < 128)
        },
        error_about(kind, source, s) matches Some(e) ==> {
            &&& e.len() == 48 + if s.len() <= 48 {
                s.len() - 0
            } else {
                48
            }
            &&& e.skip(48) == s.take(e.len() - 48)
            &&& e[4] * 256 + e[5] == e.len() - 40
            &&& e[7] == 64
            &&& message_checksum_v6(source.v6->0, v6_at(s, 8), e.skip(40)) == 0
            &&& packet_info(e) == Ok::<PacketInfo, ForwardingError>(
                PacketInfo {
                    version: 6,
                    src: IpAddr::V6(source.v6->0),
                    dst: IpAddr::V6(v6_at(s, 8)),
                    protocol: 58,
                },
            )
            &&& match kind {
                IcmpErrorKind::TimeExceeded => e[40] == 3 && e[41] == 0,
                IcmpErrorKind::NoRoute => e[40] == 1 && e[41] == 0,
                IcmpErrorKind::AdminProhibited => e[40] == 1 && e[41] == 1,
                IcmpErrorKind::PacketTooBig { mtu } => e[40] == 2 && e[41] == 0 && e[44] == 0
                    && e[45] == 0 && e[46] * 256 + e[47] == mtu,
            }
        },
{
    if let Some(e) = error_about(kind, source, s) {
        let gateway = source.v6->0;
        let src = v6_at(s, 8);
        lemma_error_v6_valid(kind, gateway, s, kind, gateway);
        let q = quoted(s, 40);
        let (t, code, rest) = error_v6_fields(kind);
        lemma_error_fields(kind);
        lemma_message_v6_shape(gateway, src, t, code, rest, q);
        let body = message_v6(gateway, src, t, code, rest, q);
        let header = ipv6_header(8 + q.len(), 58, 64, gateway, src);
        lemma_header_v6_layout(8 + q.len(), 58, 64, gateway, src);
        assert(e[4] == header[4] && e[5] == header[5] && e[7] == header[7]);
        lemma_message_v6_fields(gateway, src, t, code, rest, q);
        assert(e[40] == body[0] && e[41] == body[1]);
        assert(e[44] == body[4] && e[45] == body[5] && e[46] == body[6] && e[47] == body[7]);
        if let IcmpErrorKind::PacketTooBig { mtu } = kind {
            lemma_mtu_told(mtu);
        }
        lemma_quote(s, 40);
    }
}

} // verus!
