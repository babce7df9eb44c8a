//! IP packet validation and mutation for forwarding (RFC 9484 §7.2, §11).

use vstd::prelude::*;
use vstd::slice::slice_subrange;

use crate::bigendian::{
    be16, be32, be_bytes, be_value, lemma_be_bytes_len, push_u16, push_u32, read_u16,
};
use crate::capsule::AssignedAddress;
use crate::error::ForwardingError;
use crate::forwarding::checksum::{
    checksum_of, checksum_verifies, lemma_checksum_verifies, lemma_word_sum_bound, word_sum,
};
pub use crate::forwarding::checksum::ipv4_checksum;
use crate::net::{IpAddr, IpNet, Ipv4Addr, Ipv6Addr};

verus! {

/// Summary of a parsed IP packet header.
#[derive(Debug, Clone, Copy, PartialEq, Eq, Structural)]
pub struct PacketInfo {
    /// 4 or 6.
    pub version: u8,
    pub src: IpAddr,
    pub dst: IpAddr,
    /// IPv4 Protocol, or what stands at the end of the IPv6 extension-header
    /// chain.
    pub protocol: u8,
}

/// Length of the IPv4 header in bytes, from its first byte.
pub open spec fn ihl_of(s: Seq<u8>) -> nat {
    (s[0] % 16) as nat * 4
}

/// The upper-layer protocol at the end of an extension-header chain: `next`
/// is the type of the header at `offset`, and at most `fuel` headers are
/// looked at.
///
/// Hop-by-Hop (0), Routing (43) and Destination Options (60) give their length
/// in 8-octet units past the first 8; Authentication (51) in 4-octet units
/// plus 2; Fragment (44) is 8 octets, and a fragment that is not the first
/// hides what follows, so it is reported itself.
pub open spec fn final_protocol(
    s: Seq<u8>,
    next: u8,
    offset: int,
    fuel: nat,
) -> Result<u8, ForwardingError>
    decreases fuel,
{
    if fuel == 0 {
        Err(ForwardingError::MalformedPacket)
    } else if next == 0 || next == 43 || next == 60 {
        if s.len() < offset + 8 || s.len() < offset + 8 + s[offset + 1] * 8 {
            Err(ForwardingError::MalformedPacket)
        } else {
            final_protocol(
                s,
                s[offset],
                offset + 8 + s[offset + 1] * 8,
                (fuel - 1) as nat,
            )
        }
    } else if next == 44 {
        if s.len() < offset + 8 {
            Err(ForwardingError::MalformedPacket)
        } else if be16(s, offset + 2) / 8 != 0 {
            Ok(44)
        } else {
            final_protocol(s, s[offset], offset + 8, (fuel - 1) as nat)
        }
    } else if next == 51 {
        if s.len() < offset + 8 || s.len() < offset + (s[offset + 1] + 2) * 4 {
            Err(ForwardingError::MalformedPacket)
        } else {
            final_protocol(
                s,
                s[offset],
                offset + (s[offset + 1] + 2) * 4,
                (fuel - 1) as nat,
            )
        }
    } else {
        Ok(next)
    }
}

/// The IPv4 address at `i`.
pub open spec fn v4_at(s: Seq<u8>, i: int) -> Ipv4Addr {
    Ipv4Addr { bits: be32(s, i) as u32 }
}

/// The IPv6 address at `i`.
pub open spec fn v6_at(s: Seq<u8>, i: int) -> Ipv6Addr {
    Ipv6Addr { bits: be_value(s.subrange(i, i + 16)) as u128 }
}

/// What a raw IP packet says about itself. A packet whose length fields do
/// not match its size is malformed.
pub open spec fn packet_info(s: Seq<u8>) -> Result<PacketInfo, ForwardingError> {
    if s.len() == 0 {
        Err(ForwardingError::MalformedPacket)
    } else if s[0] / 16 == 4 {
        if s.len() < 20 || ihl_of(s) < 20 || be16(s, 2) < ihl_of(s) || s.len() != be16(s, 2) {
            Err(ForwardingError::MalformedPacket)
        } else {
            Ok(
                PacketInfo {
                    version: 4,
                    src: IpAddr::V4(v4_at(s, 12)),
                    dst: IpAddr::V4(v4_at(s, 16)),
                    protocol: s[9],
                },
            )
        }
    } else if s[0] / 16 == 6 {
        if s.len() < 40 || s.len() != 40 + be16(s, 4) {
            Err(ForwardingError::MalformedPacket)
        } else {
            match final_protocol(s, s[6], 40, 8) {
                Ok(protocol) => Ok(
                    PacketInfo {
                        version: 6,
                        src: IpAddr::V6(v6_at(s, 8)),
                        dst: IpAddr::V6(v6_at(s, 24)),
                        protocol,
                    },
                ),
                Err(e) => Err(e),
            }
        }
    } else {
        Err(ForwardingError::MalformedPacket)
    }
}

/// Parse and sanity-check a raw IP packet.
pub fn parse_packet(packet: &[u8]) -> (r: Result<PacketInfo, ForwardingError>)
    ensures
        r == packet_info(packet@),
{
    let n: usize = packet.len();
    if n == 0 {
        return Err(ForwardingError::MalformedPacket);
    }
    match packet[0] / 16 {
        4 => {
            if n < 20 {
                return Err(ForwardingError::MalformedPacket);
            }
            let ihl: usize = (packet[0] % 16) as usize * 4;
            let total_len: usize = read_u16(packet, 2) as usize;
            if ihl < 20 || total_len < ihl || n != total_len {
                return Err(ForwardingError::MalformedPacket);
            }
            Ok(
                PacketInfo {
                    version: 4,
                    src: IpAddr::V4(Ipv4Addr::read(packet, 12)),
                    dst: IpAddr::V4(Ipv4Addr::read(packet, 16)),
                    protocol: packet[9],
                },
            )
        },
        6 => {
            if n < 40 {
                return Err(ForwardingError::MalformedPacket);
            }
            let payload_len: usize = read_u16(packet, 4) as usize;
            if n != 40 + payload_len {
                return Err(ForwardingError::MalformedPacket);
            }
            let protocol: u8 = match ipv6_final_protocol(packet) {
                Ok(p) => p,
                Err(e) => {
                    return Err(e);
                },
            };
            Ok(
                PacketInfo {
                    version: 6,
                    src: IpAddr::V6(Ipv6Addr::read(packet, 8)),
                    dst: IpAddr::V6(Ipv6Addr::read(packet, 24)),
                    protocol,
                },
            )
        },
        _ => Err(ForwardingError::MalformedPacket),
    }
}

/// Walk the IPv6 extension-header chain to the upper-layer protocol.
///
/// Handles Hop-by-Hop (0), Routing (43), Fragment (44), Auth (51) and
/// Destination Options (60); stops at No Next Header (59). A fragment with
/// nonzero offset hides the real protocol, so the Fragment header itself is
/// reported in that case.
pub fn ipv6_final_protocol(packet: &[u8]) -> (r: Result<u8, ForwardingError>)
    requires
        packet@.len() >= 40,
    ensures
        r == final_protocol(packet@, packet@[6], 40, 8),
{
    let n: usize = packet.len();
    let mut next: u8 = packet[6];
    let mut offset: usize = 40;
    // The chain is short in practice; the bound guards malformed loops.
    let mut looked: u8 = 0;
    while looked < 8
        invariant
            looked <= 8,
            n == packet@.len(),
            40 <= offset <= n,
            final_protocol(packet@, packet@[6], 40, 8) == final_protocol(
                packet@,
                next,
                offset as int,
                (8 - looked) as nat,
            ),
        decreases 8 - looked,
    {
        match next {
            0 | 43 | 60 => {
                // Hdr Ext Len is in 8-octet units, excluding the first 8.
                if n - offset < 8 {
                    return Err(ForwardingError::MalformedPacket);
                }
                let len: usize = 8 + packet[offset + 1] as usize * 8;
                if n - offset < len {
                    return Err(ForwardingError::MalformedPacket);
                }
                next = packet[offset];
                offset = offset + len;
            },
            44 => {
                // Fragment header: fixed 8 octets.
                if n - offset < 8 {
                    return Err(ForwardingError::MalformedPacket);
                }
                if read_u16(packet, offset + 2) / 8 != 0 {
                    // Non-first fragment: the upper-layer header is absent.
                    return Ok(44);
                }
                next = packet[offset];
                offset = offset + 8;
            },
            51 => {
                // Authentication header: Payload Len in 4-octet units, +2.
                if n - offset < 8 {
                    return Err(ForwardingError::MalformedPacket);
                }
                let len: usize = (packet[offset + 1] as usize + 2) * 4;
                if n - offset < len {
                    return Err(ForwardingError::MalformedPacket);
                }
                next = packet[offset];
                offset = offset + len;
            },
            other => {
                return Ok(other);
            },
        }
        looked = looked + 1;
    }
    Err(ForwardingError::MalformedPacket)
}

/// `src` lies inside the prefix that an assignment spells.
pub open spec fn assigned_covers(a: AssignedAddress, src: IpAddr) -> bool {
    a.prefix_length <= a.ip_address.spec_width() && match (a.ip_address, src) {
        (IpAddr::V4(x), IpAddr::V4(y)) => (crate::net::Ipv4Net {
            addr: x,
            prefix_len: a.prefix_length,
        }).spec_contains(y),
        (IpAddr::V6(x), IpAddr::V6(y)) => (crate::net::Ipv6Net {
            addr: x,
            prefix_len: a.prefix_length,
        }).spec_contains(y),
        _ => false,
    }
}

/// `src` lies inside one of the assigned prefixes.
pub open spec fn source_allowed(assigned: Seq<AssignedAddress>, src: IpAddr) -> bool {
    exists|i: int| 0 <= i < assigned.len() && assigned_covers(#[trigger] assigned[i], src)
}

/// Enforce BCP 38: the packet's source must fall within one of the
/// session's assigned addresses (RFC 9484 §11).
pub fn validate_source(info: &PacketInfo, assigned: &[AssignedAddress]) -> (r: Result<
    (),
    ForwardingError,
>)
    ensures
        source_allowed(assigned@, info.src) ==> r is Ok,
        !source_allowed(assigned@, info.src) ==> r == Err::<(), ForwardingError>(
            ForwardingError::SourceAddressViolation(info.src),
        ),
{
    let mut i: usize = 0;
    while i < assigned.len()
        invariant
            i <= assigned@.len(),
            forall|j: int| 0 <= j < i ==> !assigned_covers(#[trigger] assigned@[j], info.src),
        decreases assigned@.len() - i,
    {
        let a = assigned[i];
        match IpNet::new(a.ip_address, a.prefix_length) {
            Ok(net) => {
                if net.contains(&info.src) {
                    assert(assigned_covers(assigned@[i as int], info.src));
                    return Ok(());
                }
            },
            Err(_) => {},
        }
        i = i + 1;
    }
    Err(ForwardingError::SourceAddressViolation(info.src))
}

/// Addresses a proxy must not forward to: loopback (127/8, ::1), link-local
/// (169.254/16, fe80::/10), unspecified, and the IPv4 broadcast address.
pub open spec fn destination_refused(dst: IpAddr) -> bool {
    match dst {
        IpAddr::V4(a) => {
            ||| a.bits / 0x100_0000 == 127
            ||| a.bits / 0x1_0000 == 0xa9fe
            ||| a.bits == 0
            ||| a.bits == 0xffff_ffff
        },
        IpAddr::V6(a) => {
            ||| a.bits == 1
            ||| a.bits == 0
            ||| a.bits / 0x0040_0000_0000_0000_0000_0000_0000_0000 == 0x3fa
        },
    }
}

/// Reject destinations a proxy must not forward to (RFC 9484 §7.2):
/// loopback, link-local, and unspecified addresses.
pub fn validate_destination(dst: &IpAddr) -> (r: Result<(), ForwardingError>)
    ensures
        destination_refused(*dst) ==> r == Err::<(), ForwardingError>(
            ForwardingError::LinkLocalDrop,
        ),
        !destination_refused(*dst) ==> r is Ok,
{
    let refused = match dst {
        IpAddr::V4(a) => a.bits / 0x100_0000 == 127 || a.bits / 0x1_0000 == 0xa9fe || a.bits == 0
            || a.bits == 0xffff_ffff,
        IpAddr::V6(a) => a.bits == 1 || a.bits == 0 || a.bits
            / 0x0040_0000_0000_0000_0000_0000_0000_0000 == 0x3fa,
    };
    if refused {
        Err(ForwardingError::LinkLocalDrop)
    } else {
        Ok(())
    }
}

/// The packet with its IPv4 header checksum field set to the checksum of the
/// header.
pub open spec fn with_header_checksum(s: Seq<u8>) -> Seq<u8> {
    let zeroed = s.update(10, 0).update(11, 0);
    let c = checksum_of(zeroed.take(ihl_of(s) as int));
    zeroed.update(10, (c / 256) as u8).update(11, (c % 256) as u8)
}

/// What one hop does to a packet: TTL or Hop Limit goes down by one, and an
/// IPv4 header gets a fresh checksum.
pub open spec fn after_hop(s: Seq<u8>) -> Result<Seq<u8>, ForwardingError> {
    if s.len() == 0 {
        Err(ForwardingError::MalformedPacket)
    } else if s[0] / 16 == 4 {
        if s.len() < 20 {
            Err(ForwardingError::MalformedPacket)
        } else if s[8] <= 1 {
            Err(ForwardingError::TtlExpired)
        } else {
            Ok(with_header_checksum(s.update(8, (s[8] - 1) as u8)))
        }
    } else if s[0] / 16 == 6 {
        if s.len() < 40 {
            Err(ForwardingError::MalformedPacket)
        } else if s[7] <= 1 {
            Err(ForwardingError::TtlExpired)
        } else {
            Ok(s.update(7, (s[7] - 1) as u8))
        }
    } else {
        Err(ForwardingError::MalformedPacket)
    }
}

/// A header that leaves room for its checksum field verifies once the field
/// is filled in.
pub proof fn lemma_header_checksum_verifies(s: Seq<u8>)
    requires
        s.len() >= ihl_of(s),
        ihl_of(s) >= 12,
    ensures
        checksum_verifies(with_header_checksum(s).take(ihl_of(s) as int)),
        with_header_checksum(s).len() == s.len(),
{
    let n = ihl_of(s) as int;
    let zeroed = s.update(10, 0).update(11, 0);
    let a = s.take(10);
    let b = s.subrange(12, n);
    assert(zeroed.take(n) =~= a + seq![0u8, 0u8] + b);
    let c = checksum_of(zeroed.take(n));
    lemma_checksum_verifies(a, b);
    reveal_with_fuel(be_bytes, 3);
    assert(with_header_checksum(s).take(n) =~= a + be_bytes(c as nat, 2) + b);
}

/// A hop leaves every IPv4 packet with a verifying header checksum, and the
/// addresses, protocol and payload of any packet as they were.
pub proof fn lemma_hop_keeps_packet(s: Seq<u8>)
    requires
        packet_info(s) is Ok,
        after_hop(s) is Ok,
    ensures
        packet_info(after_hop(s)->Ok_0) == packet_info(s),
        after_hop(s)->Ok_0.len() == s.len(),
        s[0] / 16 == 4 ==> checksum_verifies(after_hop(s)->Ok_0.take(ihl_of(s) as int)),
{
    let t = after_hop(s)->Ok_0;
    if s[0] / 16 == 4 {
        let d = s.update(8, (s[8] - 1) as u8);
        lemma_header_checksum_verifies(d);
        assert(ihl_of(d) == ihl_of(s));
    } else {
        assert(t.subrange(8, 24) =~= s.subrange(8, 24));
        assert(t.subrange(24, 40) =~= s.subrange(24, 40));
        lemma_final_protocol_same(s, t, s[6], 40, 8);
    }
}

/// `t` is the packet `s`, whole, one hop later: its TTL or Hop Limit is one
/// less, an IPv4 header has a checksum that verifies, and every other byte is
/// as it was.
pub open spec fn one_hop_later(s: Seq<u8>, t: Seq<u8>) -> bool {
    &&& t.len() == s.len()
    &&& if s[0] / 16 == 4 {
        &&& t[8] == s[8] - 1
        &&& checksum_verifies(t.take((s[0] % 16) as int * 4))
        &&& forall|i: int|
            0 <= i < s.len() && i != 8 && i != 10 && i != 11 ==> #[trigger] t[i] == s[i]
    } else {
        &&& t[7] == s[7] - 1
        &&& forall|i: int| 0 <= i < s.len() && i != 7 ==> #[trigger] t[i] == s[i]
    }
}

/// A packet takes a hop exactly if its TTL or Hop Limit outlives it, and comes
/// out of it one hop later and otherwise the same.
pub proof fn lemma_hop(s: Seq<u8>)
    requires
        packet_info(s) is Ok,
    ensures
        ({
            let ttl = if s[0] / 16 == 4 {
                s[8]
            } else {
                s[7]
            };
            match after_hop(s) {
                Ok(t) => ttl >= 2 && one_hop_later(s, t) && packet_info(t) == packet_info(s),
                Err(e) => ttl <= 1 && e == ForwardingError::TtlExpired,
            }
        }),
{
    if after_hop(s) is Ok {
        lemma_hop_keeps_packet(s);
    }
}

/// The header chain reads only what stands behind the fixed header.
proof fn lemma_final_protocol_same(s: Seq<u8>, t: Seq<u8>, next: u8, offset: int, fuel: nat)
    requires
        s.len() == t.len(),
        offset >= 40,
        forall|i: int| 40 <= i < s.len() ==> s[i] == t[i],
    ensures
        final_protocol(s, next, offset, fuel) == final_protocol(t, next, offset, fuel),
    decreases fuel,
{
    if fuel > 0 && s.len() >= offset + 8 {
        if next == 0 || next == 43 || next == 60 {
            lemma_final_protocol_same(
                s,
                t,
                s[offset],
                offset + 8 + s[offset + 1] * 8,
                (fuel - 1) as nat,
            );
        } else if next == 44 {
            lemma_final_protocol_same(s, t, s[offset], offset + 8, (fuel - 1) as nat);
        } else if next == 51 {
            lemma_final_protocol_same(
                s,
                t,
                s[offset],
                offset + (s[offset + 1] + 2) * 4,
                (fuel - 1) as nat,
            );
        }
    }
}

/// Decrement TTL (IPv4) or Hop Limit (IPv6) in place, acting as one IP hop
/// (RFC 9484 §7.2). Recomputes the IPv4 header checksum. A packet that is
/// refused stays as it is.
pub fn decrement_ttl(packet: &mut Vec<u8>) -> (r: Result<(), ForwardingError>)
    requires
        old(packet)@.len() >= 20 && old(packet)@[0] / 16 == 4 && old(packet)@[8] > 1 ==> ihl_of(
            old(packet)@,
        ) <= old(packet)@.len(),
    ensures
        match after_hop(old(packet)@) {
            Ok(s) => r is Ok && final(packet)@ == s,
            Err(e) => r == Err::<(), ForwardingError>(e) && final(packet)@ == old(packet)@,
        },
{
    let n: usize = packet.len();
    if n == 0 {
        return Err(ForwardingError::MalformedPacket);
    }
    match packet[0] / 16 {
        4 => {
            if n < 20 {
                return Err(ForwardingError::MalformedPacket);
            }
            if packet[8] <= 1 {
                return Err(ForwardingError::TtlExpired);
            }
            let ttl: u8 = packet[8] - 1;
            packet.set(8, ttl);
            recompute_ipv4_checksum(packet);
            Ok(())
        },
        6 => {
            if n < 40 {
                return Err(ForwardingError::MalformedPacket);
            }
            if packet[7] <= 1 {
                return Err(ForwardingError::TtlExpired);
            }
            let hops: u8 = packet[7] - 1;
            packet.set(7, hops);
            Ok(())
        },
        _ => Err(ForwardingError::MalformedPacket),
    }
}

/// Recompute the IPv4 header checksum in place.
pub fn recompute_ipv4_checksum(packet: &mut Vec<u8>)
    requires
        old(packet)@.len() >= 12,
        old(packet)@.len() >= ihl_of(old(packet)@),
    ensures
        final(packet)@ == with_header_checksum(old(packet)@),
{
    let ihl: usize = (packet[0] % 16) as usize * 4;
    packet.set(10, 0);
    packet.set(11, 0);
    let header = slice_subrange(packet.as_slice(), 0, ihl);
    proof {
        assert(header@ =~= packet@.take(ihl as int));
        lemma_word_sum_bound(header@);
    }
    let checksum: u16 = ipv4_checksum(header);
    packet.set(10, (checksum / 256) as u8);
    packet.set(11, (checksum % 256) as u8);
}

/// A 20-byte IPv4 header with the given checksum field.
pub open spec fn ipv4_header_with(
    total_len: nat,
    ttl: u8,
    protocol: u8,
    checksum: u16,
    src: Ipv4Addr,
    dst: Ipv4Addr,
) -> Seq<u8> {
    seq![0x45u8, 0u8] + be_bytes(total_len, 2) + seq![0u8, 0u8, 0u8, 0u8, ttl, protocol] + be_bytes(
        checksum as nat,
        2,
    ) + (src.spec_octets() + dst.spec_octets())
}

/// A 20-byte IPv4 header with a correct checksum.
pub open spec fn ipv4_header(
    total_len: nat,
    ttl: u8,
    protocol: u8,
    src: Ipv4Addr,
    dst: Ipv4Addr,
) -> Seq<u8> {
    ipv4_header_with(
        total_len,
        ttl,
        protocol,
        checksum_of(ipv4_header_with(total_len, ttl, protocol, 0, src, dst)),
        src,
        dst,
    )
}

/// A 40-byte IPv6 header.
pub open spec fn ipv6_header(
    payload_len: nat,
    next_header: u8,
    hop_limit: u8,
    src: Ipv6Addr,
    dst: Ipv6Addr,
) -> Seq<u8> {
    seq![0x60u8, 0u8, 0u8, 0u8] + be_bytes(payload_len, 2) + seq![next_header, hop_limit]
        + src.spec_octets() + dst.spec_octets()
}

/// An ICMP message with the given checksum field: type, code, checksum, the
/// four bytes whose meaning depends on the type, and the body.
pub open spec fn message_with(
    kind: u8,
    code: u8,
    checksum: u16,
    rest: Seq<u8>,
    body: Seq<u8>,
) -> Seq<u8> {
    seq![kind, code] + be_bytes(checksum as nat, 2) + (rest + body)
}

/// An ICMPv4 message with a correct checksum.
pub open spec fn message_v4(kind: u8, code: u8, rest: Seq<u8>, body: Seq<u8>) -> Seq<u8> {
    message_with(kind, code, checksum_of(message_with(kind, code, 0, rest, body)), rest, body)
}

/// The pseudo-header that an ICMPv6 checksum covers besides the message
/// (RFC 8200 §8.1).
pub open spec fn pseudo_v6(src: Ipv6Addr, dst: Ipv6Addr, len: nat) -> Seq<u8> {
    src.spec_octets() + dst.spec_octets() + be_bytes(len, 4) + seq![0u8, 0u8, 0u8, 58u8]
}

/// The checksum of an ICMPv6 message between two addresses.
pub open spec fn message_checksum_v6(src: Ipv6Addr, dst: Ipv6Addr, message: Seq<u8>) -> u16 {
    checksum_of(pseudo_v6(src, dst, message.len()) + message)
}

/// An ICMPv6 message with a correct checksum.
pub open spec fn message_v6(
    src: Ipv6Addr,
    dst: Ipv6Addr,
    kind: u8,
    code: u8,
    rest: Seq<u8>,
    body: Seq<u8>,
) -> Seq<u8> {
    message_with(
        kind,
        code,
        message_checksum_v6(src, dst, message_with(kind, code, 0, rest, body)),
        rest,
        body,
    )
}

/// The checksums that a built packet carries verify.
pub proof fn lemma_built_checksums(
    total_len: nat,
    ttl: u8,
    protocol: u8,
    src: Ipv4Addr,
    dst: Ipv4Addr,
    kind: u8,
    code: u8,
    rest: Seq<u8>,
    body: Seq<u8>,
)
    ensures
        checksum_verifies(ipv4_header(total_len, ttl, protocol, src, dst)),
        checksum_verifies(message_v4(kind, code, rest, body)),
{
    lemma_be_bytes_len(total_len, 2);
    let a = seq![0x45u8, 0u8] + be_bytes(total_len, 2) + seq![
        0u8,
        0u8,
        0u8,
        0u8,
        ttl,
        protocol,
    ];
    let b = src.spec_octets() + dst.spec_octets();
    lemma_zero_field();
    lemma_checksum_verifies(a, b);
    lemma_checksum_verifies(seq![kind, code], rest + body);
}

/// A zeroed two-byte field.
proof fn lemma_zero_field()
    ensures
        be_bytes(0, 2) == seq![0u8, 0u8],
{
    reveal_with_fuel(be_bytes, 3);
    assert(be_bytes(0, 2) =~= seq![0u8, 0u8]);
}

/// A built ICMPv6 message verifies against its pseudo-header.
pub proof fn lemma_message_v6_verifies(
    src: Ipv6Addr,
    dst: Ipv6Addr,
    kind: u8,
    code: u8,
    rest: Seq<u8>,
    body: Seq<u8>,
)
    ensures
        message_checksum_v6(src, dst, message_v6(src, dst, kind, code, rest, body)) == 0,
{
    let zero = message_with(kind, code, 0, rest, body);
    let done = message_v6(src, dst, kind, code, rest, body);
    let c = message_checksum_v6(src, dst, zero);
    lemma_be_bytes_len(0, 2);
    lemma_be_bytes_len(c as nat, 2);
    lemma_be_bytes_len(zero.len(), 4);
    lemma_be_bytes_len(src.bits as nat, 16);
    lemma_be_bytes_len(dst.bits as nat, 16);
    lemma_zero_field();
    assert(zero.len() == done.len());
    let pseudo = pseudo_v6(src, dst, zero.len());
    let a = pseudo + seq![kind, code];
    let b = rest + body;
    lemma_checksum_verifies(a, b);
    assert(pseudo + zero =~= a + seq![0u8, 0u8] + b);
    assert(pseudo + done =~= a + be_bytes(c as nat, 2) + b);
}

fn build_v4_header(
    total_len: u16,
    ttl: u8,
    protocol: u8,
    checksum: u16,
    src: &Ipv4Addr,
    dst: &Ipv4Addr,
) -> (out: Vec<u8>)
    ensures
        out@ == ipv4_header_with(total_len as nat, ttl, protocol, checksum, *src, *dst),
        out@.len() == 20,
{
    let mut out: Vec<u8> = Vec::new();
    out.push(0x45);  // version 4, IHL 5
    out.push(0);
    push_u16(&mut out, total_len);
    out.push(0);
    out.push(0);
    out.push(0);
    out.push(0);
    out.push(ttl);
    out.push(protocol);
    push_u16(&mut out, checksum);
    let mut s = src.octets();
    out.append(&mut s);
    let mut d = dst.octets();
    out.append(&mut d);
    proof {
        lemma_be_bytes_len(total_len as nat, 2);
        lemma_be_bytes_len(checksum as nat, 2);
        assert(out@ =~= ipv4_header_with(total_len as nat, ttl, protocol, checksum, *src, *dst));
    }
    out
}

/// Builds a 20-byte IPv4 header with a correct checksum.
pub(crate) fn make_v4_header(
    total_len: u16,
    ttl: u8,
    protocol: u8,
    src: &Ipv4Addr,
    dst: &Ipv4Addr,
) -> (out: Vec<u8>)
    ensures
        out@ == ipv4_header(total_len as nat, ttl, protocol, *src, *dst),
        out@.len() == 20,
{
    let blank = build_v4_header(total_len, ttl, protocol, 0, src, dst);
    proof {
        lemma_word_sum_bound(blank@);
    }
    let checksum: u16 = ipv4_checksum(blank.as_slice());
    build_v4_header(total_len, ttl, protocol, checksum, src, dst)
}

/// Builds a 40-byte IPv6 header.
pub(crate) fn make_v6_header(
    payload_len: u16,
    next_header: u8,
    hop_limit: u8,
    src: &Ipv6Addr,
    dst: &Ipv6Addr,
) -> (out: Vec<u8>)
    ensures
        out@ == ipv6_header(payload_len as nat, next_header, hop_limit, *src, *dst),
        out@.len() == 40,
{
    let mut out: Vec<u8> = Vec::new();
    out.push(0x60);
    out.push(0);
    out.push(0);
    out.push(0);
    push_u16(&mut out, payload_len);
    out.push(next_header);
    out.push(hop_limit);
    let mut s = src.octets();
    out.append(&mut s);
    let mut d = dst.octets();
    out.append(&mut d);
    proof {
        lemma_be_bytes_len(payload_len as nat, 2);
        assert(out@ =~= ipv6_header(payload_len as nat, next_header, hop_limit, *src, *dst));
    }
    out
}

fn build_message(kind: u8, code: u8, checksum: u16, rest: &[u8], body: &[u8]) -> (out: Vec<u8>)
    ensures
        out@ == message_with(kind, code, checksum, rest@, body@),
        out@.len() == 4 + rest@.len() + body@.len(),
{
    let mut out: Vec<u8> = Vec::new();
    out.push(kind);
    out.push(code);
    push_u16(&mut out, checksum);
    out.extend_from_slice(rest);
    out.extend_from_slice(body);
    proof {
        lemma_be_bytes_len(checksum as nat, 2);
        assert(out@ =~= message_with(kind, code, checksum, rest@, body@));
    }
    out
}

/// Builds an ICMPv4 message with a correct checksum.
pub(crate) fn make_message_v4(kind: u8, code: u8, rest: &[u8], body: &[u8]) -> (out: Vec<u8>)
    requires
        word_sum(message_with(kind, code, 0, rest@, body@)) <= u32::MAX,
    ensures
        out@ == message_v4(kind, code, rest@, body@),
        out@.len() == 4 + rest@.len() + body@.len(),
{
    let blank = build_message(kind, code, 0, rest, body);
    let checksum: u16 = ipv4_checksum(blank.as_slice());
    build_message(kind, code, checksum, rest, body)
}

/// Builds an ICMPv6 message with a correct checksum.
pub(crate) fn make_message_v6(
    src: &Ipv6Addr,
    dst: &Ipv6Addr,
    kind: u8,
    code: u8,
    rest: &[u8],
    body: &[u8],
) -> (out: Vec<u8>)
    requires
        4 + rest@.len() + body@.len() <= u32::MAX,
        word_sum(
            pseudo_v6(*src, *dst, 4 + rest@.len() + body@.len()) + message_with(
                kind,
                code,
                0,
                rest@,
                body@,
            ),
        ) <= u32::MAX,
    ensures
        out@ == message_v6(*src, *dst, kind, code, rest@, body@),
        out@.len() == 4 + rest@.len() + body@.len(),
{
    let blank = build_message(kind, code, 0, rest, body);
    let checksum: u16 = icmpv6_checksum(src, dst, blank.as_slice());
    build_message(kind, code, checksum, rest, body)
}

/// An IPv4 ICMP Echo packet: request (type 8) or reply (type 0).
pub open spec fn echo_v4(
    src: Ipv4Addr,
    dst: Ipv4Addr,
    is_reply: bool,
    identifier: u16,
    sequence: u16,
    payload: Seq<u8>,
    ttl: u8,
) -> Seq<u8> {
    ipv4_header((28 + payload.len()) % 0x1_0000, ttl, 1, src, dst) + message_v4(
        if is_reply {
            0
        } else {
            8
        },
        0,
        echo_fields(identifier, sequence),
        payload,
    )
}

/// Build a minimal IPv4 ICMP Echo Request/Reply packet.
///
/// The 16-bit sums must not overflow 32 bits, which a payload that fits an IP
/// packet never makes them do.
pub fn build_ipv4_icmp_echo(
    src: Ipv4Addr,
    dst: Ipv4Addr,
    is_reply: bool,
    identifier: u16,
    sequence: u16,
    payload: &[u8],
    ttl: u8,
) -> (packet: Vec<u8>)
    requires
        28 + payload@.len() <= usize::MAX,
        word_sum(
            message_with(
                if is_reply {
                    0
                } else {
                    8
                },
                0,
                0,
                echo_fields(identifier, sequence),
                payload@,
            ),
        ) <= u32::MAX,
    ensures
        packet@ == echo_v4(src, dst, is_reply, identifier, sequence, payload@, ttl),
{
    let total_len: usize = 28 + payload.len();
    let mut packet = make_v4_header(low16(total_len), ttl, 1, &src, &dst);
    let rest = echo_rest(identifier, sequence);
    let kind: u8 = if is_reply {
        0
    } else {
        8
    };
    let mut message = make_message_v4(kind, 0, rest.as_slice(), payload);
    packet.append(&mut message);
    packet
}

/// The four bytes that tell one echo from another.
pub open spec fn echo_fields(identifier: u16, sequence: u16) -> Seq<u8> {
    be_bytes(identifier as nat, 2) + be_bytes(sequence as nat, 2)
}

/// `n` modulo 2^16, the way a 16-bit length field takes it.
fn low16(n: usize) -> (v: u16)
    ensures
        v == n % 0x1_0000,
{
    (n % 0x1_0000) as u16
}

/// Appends `n` as four bytes.
fn push_len32(out: &mut Vec<u8>, n: usize)
    requires
        n <= u32::MAX,
    ensures
        final(out)@ == old(out)@ + be_bytes(n as nat, 4),
{
    push_u32(out, n as u32);
}

fn echo_rest(identifier: u16, sequence: u16) -> (rest: Vec<u8>)
    ensures
        rest@ == echo_fields(identifier, sequence),
        rest@.len() == 4,
{
    let mut rest: Vec<u8> = Vec::new();
    push_u16(&mut rest, identifier);
    push_u16(&mut rest, sequence);
    proof {
        lemma_be_bytes_len(identifier as nat, 2);
        lemma_be_bytes_len(sequence as nat, 2);
        assert(rest@ =~= echo_fields(identifier, sequence));
    }
    rest
}

/// ICMPv6 checksum: RFC 1071 fold over the IPv6 pseudo-header (RFC 8200
/// §8.1) plus the ICMPv6 message.
pub fn icmpv6_checksum(src: &Ipv6Addr, dst: &Ipv6Addr, message: &[u8]) -> (c: u16)
    requires
        message@.len() <= u32::MAX,
        word_sum(pseudo_v6(*src, *dst, message@.len()) + message@) <= u32::MAX,
    ensures
        c == message_checksum_v6(*src, *dst, message@),
{
    let mut pseudo = src.octets();
    let mut d = dst.octets();
    pseudo.append(&mut d);
    push_len32(&mut pseudo, message.len());
    pseudo.push(0);
    pseudo.push(0);
    pseudo.push(0);
    pseudo.push(58);  // zeros + Next Header (ICMPv6)
    proof {
        assert(pseudo@ =~= pseudo_v6(*src, *dst, message@.len()));
    }
    pseudo.extend_from_slice(message);
    proof {
        assert(pseudo@ =~= pseudo_v6(*src, *dst, message@.len()) + message@);
    }
    ipv4_checksum(pseudo.as_slice())
}

/// An IPv6 ICMPv6 Echo packet: request (type 128) or reply (type 129).
pub open spec fn echo_v6(
    src: Ipv6Addr,
    dst: Ipv6Addr,
    is_reply: bool,
    identifier: u16,
    sequence: u16,
    payload: Seq<u8>,
    hop_limit: u8,
) -> Seq<u8> {
    ipv6_header((8 + payload.len()) % 0x1_0000, 58, hop_limit, src, dst) + message_v6(
        src,
        dst,
        if is_reply {
            129
        } else {
            128
        },
        0,
        echo_fields(identifier, sequence),
        payload,
    )
}

/// Build a minimal IPv6 ICMPv6 Echo Request/Reply packet.
///
/// The 16-bit sums must not overflow 32 bits, which a payload that fits an IP
/// packet never makes them do.
pub fn build_ipv6_icmpv6_echo(
    src: Ipv6Addr,
    dst: Ipv6Addr,
    is_reply: bool,
    identifier: u16,
    sequence: u16,
    payload: &[u8],
    hop_limit: u8,
) -> (packet: Vec<u8>)
    requires
        8 + payload@.len() <= u32::MAX,
        word_sum(
            pseudo_v6(src, dst, 8 + payload@.len()) + message_with(
                if is_reply {
                    129
                } else {
                    128
                },
                0,
                0,
                echo_fields(identifier, sequence),
                payload@,
            ),
        ) <= u32::MAX,
    ensures
        packet@ == echo_v6(src, dst, is_reply, identifier, sequence, payload@, hop_limit),
{
    let message_len: usize = 8 + payload.len();
    let mut packet = make_v6_header(low16(message_len), 58, hop_limit, &src, &dst);
    let rest = echo_rest(identifier, sequence);
    let kind: u8 = if is_reply {
        129
    } else {
        128
    };
    let mut message = make_message_v6(&src, &dst, kind, 0, rest.as_slice(), payload);
    packet.append(&mut message);
    packet
}

/// A built IPv4 header in front of a body that fits it makes a packet that
/// parses to what it was built from.
pub proof fn lemma_v4_packet_parses(
    ttl: u8,
    protocol: u8,
    src: Ipv4Addr,
    dst: Ipv4Addr,
    body: Seq<u8>,
)
    requires
        20 + body.len() < 0x1_0000,
    ensures
        ({
            let s = ipv4_header(20 + body.len(), ttl, protocol, src, dst) + body;
            &&& packet_info(s) == Ok::<PacketInfo, ForwardingError>(
                PacketInfo { version: 4, src: IpAddr::V4(src), dst: IpAddr::V4(dst), protocol },
            )
            &&& ihl_of(s) == 20
            &&& s[9] == protocol
            &&& s.len() == 20 + body.len()
            &&& s.skip(20) == body
            &&& s.subrange(12, 16) == src.spec_octets()
            &&& s.subrange(16, 20) == dst.spec_octets()
        }),
{
    let total = 20 + body.len();
    let header = ipv4_header(total, ttl, protocol, src, dst);
    let s = header + body;
    let c = checksum_of(ipv4_header_with(total, ttl, protocol, 0, src, dst));
    crate::bigendian::lemma_pow256_values();
    lemma_be_bytes_len(total, 2);
    lemma_be_bytes_len(c as nat, 2);
    lemma_be_bytes_len(src.bits as nat, 4);
    lemma_be_bytes_len(dst.bits as nat, 4);
    assert(s.subrange(2, 4) =~= be_bytes(total, 2));
    crate::bigendian::lemma_be_value_of_bytes(total, 2);
    crate::bigendian::lemma_be_value_2(s, 2);
    assert(s.subrange(12, 16) =~= src.spec_octets());
    crate::bigendian::lemma_be_value_of_bytes(src.bits as nat, 4);
    crate::bigendian::lemma_be_value_4(s, 12);
    assert(s.subrange(16, 20) =~= dst.spec_octets());
    crate::bigendian::lemma_be_value_of_bytes(dst.bits as nat, 4);
    crate::bigendian::lemma_be_value_4(s, 16);
    assert(s.skip(20) =~= body);
    assert(s[0] == 0x45);
}

/// A built IPv6 header in front of a body that fits it makes a packet that
/// parses to what it was built from, when no extension header follows.
pub proof fn lemma_v6_packet_parses(
    next_header: u8,
    hop_limit: u8,
    src: Ipv6Addr,
    dst: Ipv6Addr,
    body: Seq<u8>,
)
    requires
        body.len() < 0x1_0000,
        next_header != 0,
        next_header != 43,
        next_header != 44,
        next_header != 51,
        next_header != 60,
    ensures
        ({
            let s = ipv6_header(body.len(), next_header, hop_limit, src, dst) + body;
            &&& packet_info(s) == Ok::<PacketInfo, ForwardingError>(
                PacketInfo {
                    version: 6,
                    src: IpAddr::V6(src),
                    dst: IpAddr::V6(dst),
                    protocol: next_header,
                },
            )
            &&& s[6] == next_header
            &&& s.len() == 40 + body.len()
            &&& s.skip(40) == body
            &&& s.subrange(8, 24) == src.spec_octets()
            &&& s.subrange(24, 40) == dst.spec_octets()
        }),
{
    let header = ipv6_header(body.len(), next_header, hop_limit, src, dst);
    let s = header + body;
    crate::bigendian::lemma_pow256_values();
    lemma_be_bytes_len(body.len(), 2);
    lemma_be_bytes_len(src.bits as nat, 16);
    lemma_be_bytes_len(dst.bits as nat, 16);
    assert(s.subrange(4, 6) =~= be_bytes(body.len(), 2));
    crate::bigendian::lemma_be_value_of_bytes(body.len(), 2);
    crate::bigendian::lemma_be_value_2(s, 4);
    assert(s.subrange(8, 24) =~= src.spec_octets());
    crate::bigendian::lemma_be_value_of_bytes(src.bits as nat, 16);
    assert(s.subrange(24, 40) =~= dst.spec_octets());
    crate::bigendian::lemma_be_value_of_bytes(dst.bits as nat, 16);
    assert(s.skip(40) =~= body);
    assert(s[0] == 0x60);
}

/// A packet parses exactly if it is IPv4 or IPv6 and as long as it says; what
/// it parses to are its own bytes: the addresses octet by octet, and for IPv4
/// the protocol. For IPv6 the protocol is what its header chain ends in.
pub proof fn lemma_parsed(s: Seq<u8>)
    ensures
        s.len() == 0 || (s[0] / 16 != 4 && s[0] / 16 != 6) ==> packet_info(s) == Err::<
            PacketInfo,
            ForwardingError,
        >(ForwardingError::MalformedPacket),
        s.len() > 0 && s[0] / 16 == 4 ==> (packet_info(s) is Ok <==> {
            &&& s.len() >= 20
            &&& 5 <= s[0] % 16
            &&& (s[0] % 16) as int * 4 <= s.len()
            &&& s.len() == s[2] as int * 256 + s[3]
        }),
        s.len() > 0 && s[0] / 16 == 6 ==> (packet_info(s) is Ok <==> s.len() >= 40 && s.len() == 40
            + s[4] as int * 256 + s[5] && final_protocol(s, s[6], 40, 8) is Ok),
        packet_info(s) matches Ok(info) ==> {
            &&& info.version == s[0] / 16
            &&& s[0] / 16 == 4 ==> {
                &&& info.src matches IpAddr::V4(a) && a.spec_octets() == s.subrange(12, 16)
                &&& info.dst matches IpAddr::V4(a) && a.spec_octets() == s.subrange(16, 20)
                &&& info.protocol == s[9]
            }
            &&& s[0] / 16 == 6 ==> {
                &&& info.src matches IpAddr::V6(a) && a.spec_octets() == s.subrange(8, 24)
                &&& info.dst matches IpAddr::V6(a) && a.spec_octets() == s.subrange(24, 40)
                &&& final_protocol(s, s[6], 40, 8) == Ok::<u8, ForwardingError>(info.protocol)
            }
        },
{
    if packet_info(s) is Ok {
        if s[0] / 16 == 4 {
            lemma_octets_v4(s, 12);
            lemma_octets_v4(s, 16);
        } else {
            lemma_octets_v6(s, 8);
            lemma_octets_v6(s, 24);
        }
    }
}

proof fn lemma_octets_v4(s: Seq<u8>, i: int)
    requires
        0 <= i,
        i + 4 <= s.len(),
    ensures
        v4_at(s, i).spec_octets() == s.subrange(i, i + 4),
{
    crate::bigendian::lemma_be_value_4(s, i);
    crate::bigendian::lemma_be_bytes_of_value(s.subrange(i, i + 4));
}

proof fn lemma_octets_v6(s: Seq<u8>, i: int)
    requires
        0 <= i,
        i + 16 <= s.len(),
    ensures
        v6_at(s, i).spec_octets() == s.subrange(i, i + 16),
{
    let t = s.subrange(i, i + 16);
    crate::bigendian::lemma_be_value_bound(t);
    crate::bigendian::lemma_pow256_values();
    crate::bigendian::lemma_be_bytes_of_value(t);
}

/// The header chain is read the same wherever it stands.
proof fn lemma_chain_shift(s: Seq<u8>, t: Seq<u8>, by: int, next: u8, offset: int, fuel: nat)
    requires
        0 <= offset,
        t.len() == s.len() + by,
        forall|i: int| offset <= i < s.len() ==> t[i + by] == #[trigger] s[i],
    ensures
        final_protocol(t, next, offset + by, fuel) == final_protocol(s, next, offset, fuel),
    decreases fuel,
{
    if fuel > 0 && s.len() >= offset + 8 {
        assert(t[offset + by] == s[offset]);
        assert(t[offset + 1 + by] == s[offset + 1]);
        assert(t[offset + 2 + by] == s[offset + 2]);
        assert(t[offset + 3 + by] == s[offset + 3]);
        if next == 0 || next == 43 || next == 60 {
            let len = 8 + s[offset + 1] * 8;
            lemma_chain_shift(s, t, by, s[offset], offset + len, (fuel - 1) as nat);
        } else if next == 44 {
            lemma_chain_shift(s, t, by, s[offset], offset + 8, (fuel - 1) as nat);
        } else if next == 51 {
            let len = (s[offset + 1] + 2) * 4;
            lemma_chain_shift(s, t, by, s[offset], offset + len, (fuel - 1) as nat);
        }
    }
}

/// An extension header put in front of what follows the fixed IPv6 header
/// does not change the protocol that the chain ends in: a Hop-by-Hop, Routing
/// or Destination Options header of `8 + 8 * n` octets, an Authentication
/// header of `4 * (n + 2)`, or the Fragment header of a first fragment. `ext`
/// is the header: the type of the next one, its length field, and the rest.
pub proof fn lemma_extension_skipped(s: Seq<u8>, kind: u8, ext: Seq<u8>, fuel: nat)
    requires
        s.len() >= 40,
        ext.len() >= 8,
        ext[0] == s[6],
        kind == 0 || kind == 43 || kind == 60 ==> ext.len() == 8 + 8 * ext[1],
        kind == 51 ==> ext.len() == 4 * (ext[1] + 2),
        kind == 44 ==> ext.len() == 8 && ext[2] == 0 && ext[3] < 8,
        kind == 0 || kind == 43 || kind == 60 || kind == 51 || kind == 44,
    ensures
        final_protocol(s.take(40).update(6, kind) + ext + s.skip(40), kind, 40, fuel + 1)
            == final_protocol(s, s[6], 40, fuel),
{
    let t = s.take(40).update(6, kind) + ext + s.skip(40);
    assert(t[40] == ext[0] && t[41] == ext[1] && t[42] == ext[2] && t[43] == ext[3]);
    lemma_chain_shift(s, t, ext.len() as int, s[6], 40, fuel);
}

/// A chain ends in the first header that is no extension header, in the
/// Fragment header of a later fragment, or is malformed: when it is cut off,
/// or goes on past what is looked at.
pub proof fn lemma_chain_ends(s: Seq<u8>, next: u8, fuel: nat)
    requires
        fuel > 0,
    ensures
        next != 0 && next != 43 && next != 60 && next != 51 && next != 44 ==> final_protocol(
            s,
            next,
            40,
            fuel,
        ) == Ok::<u8, ForwardingError>(next),
        next == 44 && s.len() >= 48 && (s[42] != 0 || s[43] >= 8) ==> final_protocol(
            s,
            next,
            40,
            fuel,
        ) == Ok::<u8, ForwardingError>(44),
        (next == 0 || next == 43 || next == 60 || next == 51 || next == 44) && s.len() < 48
            ==> final_protocol(s, next, 40, fuel) == Err::<u8, ForwardingError>(
            ForwardingError::MalformedPacket,
        ),
        final_protocol(s, next, 40, 0) == Err::<u8, ForwardingError>(
            ForwardingError::MalformedPacket,
        ),
{
}

/// What must not be forwarded to, by address: 127.0.0.0 to 127.255.255.255,
/// 169.254.0.0 to 169.254.255.255, 0.0.0.0 and 255.255.255.255; `::`, `::1`
/// and fe80:: to febf:ffff:...; nothing else.
pub proof fn lemma_refused_destinations(dst: IpAddr)
    ensures
        destination_refused(dst) <==> match dst {
            IpAddr::V4(a) => {
                ||| 0x7f00_0000 <= a.bits < 0x8000_0000
                ||| 0xa9fe_0000 <= a.bits < 0xa9ff_0000
                ||| a.bits == 0
                ||| a.bits == 0xffff_ffff
            },
            IpAddr::V6(a) => {
                ||| a.bits <= 1
                ||| 0xfe80_0000_0000_0000_0000_0000_0000_0000 <= a.bits
                    < 0xfec0_0000_0000_0000_0000_0000_0000_0000
            },
        },
{
}

/// A packet may come from an address exactly if some assignment of its family
/// has it between its first and its last address, of which there are
/// two to the power of the bits that the prefix leaves free.
pub proof fn lemma_source(assigned: Seq<AssignedAddress>, src: IpAddr)
    ensures
        source_allowed(assigned, src) <==> exists|i: int|
            {
                let a = #[trigger] assigned[i];
                let width = a.ip_address.spec_width();
                &&& 0 <= i < assigned.len()
                &&& (a.ip_address is V4 <==> src is V4)
                &&& a.prefix_length <= width
                &&& a.ip_address.spec_value() / vstd::arithmetic::power2::pow2(
                    (width - a.prefix_length) as nat,
                ) == src.spec_value() / vstd::arithmetic::power2::pow2(
                    (width - a.prefix_length) as nat,
                )
            },
{
    assert forall|i: int| 0 <= i < assigned.len() implies (assigned_covers(
        #[trigger] assigned[i],
        src,
    ) <==> {
        let a = assigned[i];
        let width = a.ip_address.spec_width();
        &&& (a.ip_address is V4 <==> src is V4)
        &&& a.prefix_length <= width
        &&& a.ip_address.spec_value() / vstd::arithmetic::power2::pow2(
            (width - a.prefix_length) as nat,
        ) == src.spec_value() / vstd::arithmetic::power2::pow2((width - a.prefix_length) as nat)
    }) by {
        let a = assigned[i];
        if a.prefix_length <= a.ip_address.spec_width() {
            crate::net::lemma_same_prefix(
                a.ip_address.spec_value(),
                src.spec_value(),
                a.ip_address.spec_width(),
                a.prefix_length as nat,
            );
        }
    }
}

/// An IPv4 header as it is built: twenty bytes without options, with the total
/// length, the hops, the protocol and the two addresses, and a checksum that
/// verifies.
pub proof fn lemma_header_v4_layout(
    total_len: nat,
    ttl: u8,
    protocol: u8,
    src: Ipv4Addr,
    dst: Ipv4Addr,
)
    requires
        total_len < 0x1_0000,
    ensures
        ({
            let b = ipv4_header(total_len, ttl, protocol, src, dst);
            &&& b.len() == 20
            &&& b[0] == 0x45 && b[1] == 0
            &&& b[2] * 256 + b[3] == total_len
            &&& b[4] == 0 && b[5] == 0 && b[6] == 0 && b[7] == 0
            &&& b[8] == ttl
            &&& b[9] == protocol
            &&& b[12] * 0x100_0000 + b[13] * 0x1_0000 + b[14] * 256 + b[15] == src.bits
            &&& b[16] * 0x100_0000 + b[17] * 0x1_0000 + b[18] * 256 + b[19] == dst.bits
            &&& checksum_verifies(b)
        }),
{
    let b = ipv4_header(total_len, ttl, protocol, src, dst);
    let c = checksum_of(ipv4_header_with(total_len, ttl, protocol, 0, src, dst));
    lemma_be_bytes_len(total_len, 2);
    lemma_be_bytes_len(c as nat, 2);
    lemma_octets_spell(src);
    lemma_octets_spell(dst);
    let n = be_bytes(total_len, 2);
    reveal_with_fuel(be_bytes, 3);
    assert(n[0] == total_len / 256 && n[1] == total_len % 256);
    let s = src.spec_octets();
    let d = dst.spec_octets();
    assert(b[2] == n[0] && b[3] == n[1]);
    assert(b[12] == s[0] && b[13] == s[1] && b[14] == s[2] && b[15] == s[3]);
    assert(b[16] == d[0] && b[17] == d[1] && b[18] == d[2] && b[19] == d[3]);
    lemma_built_checksums(total_len, ttl, protocol, src, dst, 0, 0, Seq::empty(), Seq::empty());
}

proof fn lemma_octets_spell(a: Ipv4Addr)
    ensures
        a.spec_octets().len() == 4,
        a.spec_octets()[0] * 0x100_0000 + a.spec_octets()[1] * 0x1_0000 + a.spec_octets()[2] * 256
            + a.spec_octets()[3] == a.bits,
{
    let s = a.spec_octets();
    lemma_be_bytes_len(a.bits as nat, 4);
    crate::bigendian::lemma_pow256_values();
    crate::bigendian::lemma_be_value_of_bytes(a.bits as nat, 4);
    crate::bigendian::lemma_be_value_4(s, 0);
    assert(s.subrange(0, 4) =~= s);
}

proof fn lemma_octets_spell_v6(a: Ipv6Addr)
    ensures
        a.spec_octets().len() == 16,
        be_value(a.spec_octets()) == a.bits,
{
    lemma_be_bytes_len(a.bits as nat, 16);
    crate::bigendian::lemma_pow256_values();
    crate::bigendian::lemma_be_value_of_bytes(a.bits as nat, 16);
}

/// An IPv6 header as it is built: forty bytes, with the length of what follows
/// it, what that is, the hops and the two addresses.
pub proof fn lemma_header_v6_layout(
    payload_len: nat,
    next_header: u8,
    hop_limit: u8,
    src: Ipv6Addr,
    dst: Ipv6Addr,
)
    requires
        payload_len < 0x1_0000,
    ensures
        ({
            let b = ipv6_header(payload_len, next_header, hop_limit, src, dst);
            &&& b.len() == 40
            &&& b[0] == 0x60 && b[1] == 0 && b[2] == 0 && b[3] == 0
            &&& b[4] * 256 + b[5] == payload_len
            &&& b[6] == next_header
            &&& b[7] == hop_limit
            &&& be_value(b.subrange(8, 24)) == src.bits
            &&& be_value(b.subrange(24, 40)) == dst.bits
        }),
{
    let b = ipv6_header(payload_len, next_header, hop_limit, src, dst);
    lemma_be_bytes_len(payload_len, 2);
    lemma_octets_spell_v6(src);
    lemma_octets_spell_v6(dst);
    let n = be_bytes(payload_len, 2);
    reveal_with_fuel(be_bytes, 3);
    assert(n[0] == payload_len / 256 && n[1] == payload_len % 256);
    assert(b[4] == n[0] && b[5] == n[1]);
    assert(b.subrange(8, 24) =~= src.spec_octets());
    assert(b.subrange(24, 40) =~= dst.spec_octets());
}

/// What is summed in front of a message over IPv6: the two addresses, the
/// length of the message in four bytes, and its protocol.
pub proof fn lemma_pseudo_v6_layout(src: Ipv6Addr, dst: Ipv6Addr, len: nat, message: Seq<u8>)
    requires
        len < 0x1_0000_0000,
    ensures
        ({
            let b = pseudo_v6(src, dst, len);
            &&& b.len() == 40
            &&& be_value(b.subrange(0, 16)) == src.bits
            &&& be_value(b.subrange(16, 32)) == dst.bits
            &&& b[32] * 0x100_0000 + b[33] * 0x1_0000 + b[34] * 256 + b[35] == len
            &&& b[36] == 0 && b[37] == 0 && b[38] == 0 && b[39] == 58
        }),
        message_checksum_v6(src, dst, message) == 0 <==> checksum_verifies(
            pseudo_v6(src, dst, message.len()) + message,
        ),
{
    let b = pseudo_v6(src, dst, len);
    let n = be_bytes(len, 4);
    lemma_be_bytes_len(len, 4);
    lemma_octets_spell_v6(src);
    lemma_octets_spell_v6(dst);
    crate::bigendian::lemma_pow256_values();
    crate::bigendian::lemma_be_value_of_bytes(len, 4);
    crate::bigendian::lemma_be_value_4(n, 0);
    assert(n.subrange(0, 4) =~= n);
    assert(b[32] == n[0] && b[33] == n[1] && b[34] == n[2] && b[35] == n[3]);
    assert(b.subrange(0, 16) =~= src.spec_octets());
    assert(b.subrange(16, 32) =~= dst.spec_octets());
}

/// An echo over IPv4 is a packet from `src` to `dst` with the hops given, of
/// type 8 or, for a reply, 0; it holds the identifier, the sequence number and
/// the payload, and both its checksums verify.
pub proof fn lemma_echo_v4(
    src: Ipv4Addr,
    dst: Ipv4Addr,
    is_reply: bool,
    identifier: u16,
    sequence: u16,
    payload: Seq<u8>,
    ttl: u8,
)
    requires
        28 + payload.len() < 0x1_0000,
    ensures
        ({
            let b = echo_v4(src, dst, is_reply, identifier, sequence, payload, ttl);
            &&& b.len() == 28 + payload.len()
            &&& b.take(20) == ipv4_header(b.len(), ttl, 1, src, dst)
            &&& b[20] == if is_reply {
                0int
            } else {
                8
            }
            &&& b[21] == 0
            &&& b[24] * 256 + b[25] == identifier
            &&& b[26] * 256 + b[27] == sequence
            &&& b.skip(28) == payload
            &&& checksum_verifies(b.take(20))
            &&& checksum_verifies(b.skip(20))
        }),
{
    let b = echo_v4(src, dst, is_reply, identifier, sequence, payload, ttl);
    let kind: u8 = if is_reply {
        0
    } else {
        8
    };
    let f = echo_fields(identifier, sequence);
    let n = 28 + payload.len();
    lemma_header_v4_layout(n, ttl, 1, src, dst);
    lemma_built_checksums(n, ttl, 1, src, dst, kind, 0, f, payload);
    lemma_echo_fields(identifier, sequence);
    let c = checksum_of(message_with(kind, 0, 0, f, payload));
    lemma_be_bytes_len(c as nat, 2);
    let m = message_v4(kind, 0, f, payload);
    assert(n % 0x1_0000 == n) by (nonlinear_arith)
        requires
            n < 0x1_0000,
    ;
    assert(b.take(20) =~= ipv4_header(n, ttl, 1, src, dst));
    assert(b.skip(20) =~= m);
    assert(b[20] == m[0] && b[21] == m[1]);
    assert(b[24] == f[0] && b[25] == f[1] && b[26] == f[2] && b[27] == f[3]);
    assert(b.skip(28) =~= payload);
}

proof fn lemma_echo_fields(identifier: u16, sequence: u16)
    ensures
        ({
            let f = echo_fields(identifier, sequence);
            &&& f.len() == 4
            &&& f[0] * 256 + f[1] == identifier
            &&& f[2] * 256 + f[3] == sequence
        }),
{
    lemma_be_bytes_len(identifier as nat, 2);
    lemma_be_bytes_len(sequence as nat, 2);
    reveal_with_fuel(be_bytes, 3);
}

/// An echo over IPv6 is a packet from `src` to `dst` with the hops given, of
/// type 128 or, for a reply, 129; it holds the identifier, the sequence number
/// and the payload, and its checksum verifies.
pub proof fn lemma_echo_v6(
    src: Ipv6Addr,
    dst: Ipv6Addr,
    is_reply: bool,
    identifier: u16,
    sequence: u16,
    payload: Seq<u8>,
    hop_limit: u8,
)
    requires
        8 + payload.len() < 0x1_0000,
    ensures
        ({
            let b = echo_v6(src, dst, is_reply, identifier, sequence, payload, hop_limit);
            &&& b.len() == 48 + payload.len()
            &&& b.take(40) == ipv6_header(8 + payload.len(), 58, hop_limit, src, dst)
            &&& b[40] == if is_reply {
                129int
            } else {
                128
            }
            &&& b[41] == 0
            &&& b[44] * 256 + b[45] == identifier
            &&& b[46] * 256 + b[47] == sequence
            &&& b.skip(48) == payload
            &&& message_checksum_v6(src, dst, b.skip(40)) == 0
        }),
{
    let b = echo_v6(src, dst, is_reply, identifier, sequence, payload, hop_limit);
    let kind: u8 = if is_reply {
        129
    } else {
        128
    };
    let f = echo_fields(identifier, sequence);
    let n = 8 + payload.len();
    lemma_header_v6_layout(n, 58, hop_limit, src, dst);
    lemma_message_v6_verifies(src, dst, kind, 0, f, payload);
    lemma_echo_fields(identifier, sequence);
    let c = message_checksum_v6(src, dst, message_with(kind, 0, 0, f, payload));
    lemma_be_bytes_len(c as nat, 2);
    let m = message_v6(src, dst, kind, 0, f, payload);
    assert(n % 0x1_0000 == n) by (nonlinear_arith)
        requires
            n < 0x1_0000,
    ;
    assert(b.take(40) =~= ipv6_header(n, 58, hop_limit, src, dst));
    assert(b.skip(40) =~= m);
    assert(b[40] == m[0] && b[41] == m[1]);
    assert(b[44] == f[0] && b[45] == f[1] && b[46] == f[2] && b[47] == f[3]);
    assert(b.skip(48) =~= payload);
}

} // verus!
