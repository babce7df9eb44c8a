//! Packet parsing, ICMP and the vnet header.

use bytes::Bytes;
use straw::capsule::AssignedAddress;
use straw::error::ForwardingError;
use straw::forwarding::checksum::ipv4_checksum;
use straw::forwarding::icmp::{build_icmp_error, IcmpErrorKind, IcmpSource};
use straw::forwarding::packet::{
    build_ipv4_icmp_echo, build_ipv6_icmpv6_echo, decrement_ttl, icmpv6_checksum, parse_packet,
    validate_destination, validate_source,
};
use straw::forwarding::vnet::{
    expand, internet_checksum, pseudo_sum, VnetError, VnetHdr, VIRTIO_NET_HDR_F_NEEDS_CSUM,
    VIRTIO_NET_HDR_GSO_ECN, VIRTIO_NET_HDR_GSO_NONE, VIRTIO_NET_HDR_GSO_TCPV4,
    VIRTIO_NET_HDR_GSO_TCPV6, VNET_HDR_LEN,
};
use straw::net::{IpAddr, Ipv4Addr, Ipv6Addr};

fn ip(s: &str) -> IpAddr {
    match s.parse().unwrap() {
        core::net::IpAddr::V4(a) => IpAddr::V4(Ipv4Addr { bits: a.into() }),
        core::net::IpAddr::V6(a) => IpAddr::V6(Ipv6Addr { bits: a.into() }),
    }
}

fn v4(s: &str) -> Ipv4Addr {
    match ip(s) {
        IpAddr::V4(a) => a,
        IpAddr::V6(_) => panic!("not an IPv4 address"),
    }
}

fn v6(s: &str) -> Ipv6Addr {
    match ip(s) {
        IpAddr::V6(a) => a,
        IpAddr::V4(_) => panic!("not an IPv6 address"),
    }
}

fn assigned_v4(addr: [u8; 4]) -> AssignedAddress {
    AssignedAddress {
        request_id: 0,
        ip_version: 4,
        ip_address: IpAddr::V4(Ipv4Addr::new(addr[0], addr[1], addr[2], addr[3])),
        prefix_length: 32,
    }
}

fn octets(a: [u8; 4]) -> Ipv4Addr {
    Ipv4Addr::new(a[0], a[1], a[2], a[3])
}

fn echo(src: [u8; 4], dst: [u8; 4], ttl: u8) -> Vec<u8> {
    build_ipv4_icmp_echo(octets(src), octets(dst), false, 1, 1, b"ping", ttl)
}

#[test]
fn parse_valid_ipv4() {
    let pkt = echo([10, 100, 0, 2], [192, 0, 2, 1], 64);
    let info = parse_packet(&pkt).unwrap();
    assert_eq!(info.version, 4);
    assert_eq!(info.src, ip("10.100.0.2"));
    assert_eq!(info.dst, ip("192.0.2.1"));
    assert_eq!(info.protocol, 1);
}

#[test]
fn parse_rejects_length_mismatch() {
    let mut pkt = echo([10, 0, 0, 1], [10, 0, 0, 2], 64);
    pkt.push(0); // trailing junk
    assert!(matches!(
        parse_packet(&pkt),
        Err(ForwardingError::MalformedPacket)
    ));
}

#[test]
fn parse_rejects_bad_version() {
    let pkt = [0x00u8; 20];
    assert!(parse_packet(&pkt).is_err());
}

#[test]
fn parse_valid_ipv6() {
    // 40-byte header + 4-byte payload, next header = UDP (17).
    let mut pkt = vec![0u8; 44];
    pkt[0] = 0x60;
    pkt[4..6].copy_from_slice(&4u16.to_be_bytes());
    pkt[6] = 17;
    pkt[7] = 64;
    pkt[8..24].copy_from_slice(&[0xfd; 16]);
    pkt[24..40].copy_from_slice(&[0xfc; 16]);
    let info = parse_packet(&pkt).unwrap();
    assert_eq!(info.version, 6);
    assert_eq!(info.protocol, 17);
}

#[test]
fn source_validation() {
    let pkt = echo([10, 100, 0, 2], [192, 0, 2, 1], 64);
    let info = parse_packet(&pkt).unwrap();

    assert!(validate_source(&info, &[assigned_v4([10, 100, 0, 2])]).is_ok());
    assert!(matches!(
        validate_source(&info, &[assigned_v4([10, 100, 0, 3])]),
        Err(ForwardingError::SourceAddressViolation(_))
    ));
}

#[test]
fn destination_validation() {
    assert!(validate_destination(&ip("192.0.2.1")).is_ok());
    assert!(validate_destination(&ip("127.0.0.1")).is_err());
    assert!(validate_destination(&ip("169.254.0.1")).is_err());
    assert!(validate_destination(&ip("fe80::1")).is_err());
    assert!(validate_destination(&ip("::1")).is_err());
    assert!(validate_destination(&ip("2001:db8::1")).is_ok());
}

#[test]
fn ttl_decrement_updates_checksum() {
    let mut pkt = echo([10, 0, 0, 1], [192, 0, 2, 1], 64);
    decrement_ttl(&mut pkt).unwrap();
    assert_eq!(pkt[8], 63);
    // A valid IPv4 header sums (including checksum field) to 0xffff,
    // i.e. the RFC 1071 fold over it is zero.
    assert_eq!(ipv4_checksum(&pkt[..20]), 0);
}

#[test]
fn ttl_expired() {
    let mut pkt = echo([10, 0, 0, 1], [192, 0, 2, 1], 1);
    assert!(matches!(
        decrement_ttl(&mut pkt),
        Err(ForwardingError::TtlExpired)
    ));
}

#[test]
fn hop_limit_decrement_ipv6() {
    let mut pkt = vec![0u8; 40];
    pkt[0] = 0x60;
    pkt[7] = 2;
    decrement_ttl(&mut pkt).unwrap();
    assert_eq!(pkt[7], 1);
    assert!(matches!(
        decrement_ttl(&mut pkt),
        Err(ForwardingError::TtlExpired)
    ));
}

#[test]
fn ipv6_extension_header_walk() {
    // IPv6 + Hop-by-Hop (8 bytes) + Destination Options (8) + UDP.
    let mut pkt = vec![0u8; 40 + 8 + 8 + 8];
    pkt[0] = 0x60;
    pkt[4..6].copy_from_slice(&24u16.to_be_bytes());
    pkt[6] = 0; // Hop-by-Hop
    pkt[7] = 64;
    pkt[40] = 60; // next: Destination Options
    pkt[41] = 0; // 8 bytes
    pkt[48] = 17; // next: UDP
    pkt[49] = 0;
    let info = parse_packet(&pkt).unwrap();
    assert_eq!(info.protocol, 17, "walks past extension headers to UDP");
}

#[test]
fn ipv6_non_first_fragment_reports_fragment_header() {
    // IPv6 + Fragment header with nonzero offset.
    let mut pkt = vec![0u8; 40 + 8 + 4];
    pkt[0] = 0x60;
    pkt[4..6].copy_from_slice(&12u16.to_be_bytes());
    pkt[6] = 44; // Fragment
    pkt[7] = 64;
    pkt[40] = 6; // claims TCP inside
    pkt[42..44].copy_from_slice(&(100u16 << 3).to_be_bytes()); // offset 100
    let info = parse_packet(&pkt).unwrap();
    assert_eq!(info.protocol, 44, "upper-layer header absent");
}

#[test]
fn ipv6_truncated_extension_header_rejected() {
    let mut pkt = vec![0u8; 44];
    pkt[0] = 0x60;
    pkt[4..6].copy_from_slice(&4u16.to_be_bytes());
    pkt[6] = 0; // Hop-by-Hop, but only 4 bytes follow
    assert!(parse_packet(&pkt).is_err());
}

#[test]
fn icmpv6_echo_is_internally_consistent() {
    let src = v6("fd00::2");
    let dst = v6("fd00::3");
    let pkt = build_ipv6_icmpv6_echo(src, dst, false, 5, 9, b"ping6", 64);
    let info = parse_packet(&pkt).unwrap();
    assert_eq!(info.version, 6);
    assert_eq!(info.protocol, 58);
    assert_eq!(info.src, IpAddr::V6(src));
    // Checksum folds to zero when recomputed over the sent message.
    assert_eq!(icmpv6_checksum(&src, &dst, &pkt[40..]), 0);
}

#[test]
fn icmp_echo_is_internally_consistent() {
    let pkt = echo([10, 100, 0, 2], [10, 100, 0, 3], 64);
    // Both checksums verify (fold to zero).
    assert_eq!(ipv4_checksum(&pkt[..20]), 0);
    assert_eq!(ipv4_checksum(&pkt[20..]), 0);
    assert_eq!(parse_packet(&pkt).unwrap().protocol, 1);
}

fn source() -> IcmpSource {
    IcmpSource {
        v4: v4("10.100.0.1"),
        v6: Some(v6("fd00::1")),
    }
}

#[test]
fn v4_time_exceeded_quotes_original() {
    let orig = build_ipv4_icmp_echo(
        v4("10.100.0.2"),
        v4("192.0.2.1"),
        false,
        1,
        1,
        b"abcdefgh",
        1,
    );
    let err = build_icmp_error(IcmpErrorKind::TimeExceeded, source(), &orig).unwrap();

    let info = parse_packet(&err).unwrap();
    assert_eq!(info.src, ip("10.100.0.1"));
    assert_eq!(info.dst, ip("10.100.0.2"));
    assert_eq!(info.protocol, 1);
    assert_eq!(err[20], 11, "Time Exceeded");
    assert_eq!(err[21], 0);
    // Both checksums verify.
    assert_eq!(ipv4_checksum(&err[..20]), 0);
    assert_eq!(ipv4_checksum(&err[20..]), 0);
    // Quoted original: IP header + 8 bytes.
    assert_eq!(&err[28..48], &orig[..20]);
    assert_eq!(&err[48..56], &orig[20..28]);
}

#[test]
fn v4_packet_too_big_carries_mtu() {
    let orig = build_ipv4_icmp_echo(
        v4("10.100.0.2"),
        v4("192.0.2.1"),
        false,
        1,
        1,
        b"",
        64,
    );
    let err =
        build_icmp_error(IcmpErrorKind::PacketTooBig { mtu: 1400 }, source(), &orig).unwrap();
    assert_eq!(err[20], 3);
    assert_eq!(err[21], 4);
    assert_eq!(u16::from_be_bytes([err[26], err[27]]), 1400);
}

#[test]
fn v6_errors_have_valid_checksums() {
    let orig = build_ipv6_icmpv6_echo(
        v6("fd00::2"),
        v6("2001:db8::1"),
        false,
        1,
        1,
        b"payload!",
        1,
    );
    let err = build_icmp_error(IcmpErrorKind::TimeExceeded, source(), &orig).unwrap();
    let info = parse_packet(&err).unwrap();
    assert_eq!(info.protocol, 58);
    assert_eq!(info.src, ip("fd00::1"));
    assert_eq!(info.dst, ip("fd00::2"));
    assert_eq!(err[40], 3, "ICMPv6 Time Exceeded");
    let src = v6("fd00::1");
    let dst = v6("fd00::2");
    assert_eq!(icmpv6_checksum(&src, &dst, &err[40..]), 0);
}

#[test]
fn v6_packet_too_big_carries_mtu() {
    let orig = build_ipv6_icmpv6_echo(
        v6("fd00::2"),
        v6("2001:db8::1"),
        false,
        1,
        1,
        b"",
        64,
    );
    let err =
        build_icmp_error(IcmpErrorKind::PacketTooBig { mtu: 1350 }, source(), &orig).unwrap();
    assert_eq!(err[40], 2, "ICMPv6 Packet Too Big");
    assert_eq!(
        u32::from_be_bytes([err[44], err[45], err[46], err[47]]),
        1350
    );
}

#[test]
fn no_error_about_an_icmp_error() {
    // A v4 Destination Unreachable as the "original" packet.
    let echo = build_ipv4_icmp_echo(
        v4("10.100.0.2"),
        v4("192.0.2.1"),
        false,
        1,
        1,
        b"",
        64,
    );
    let unreachable = build_icmp_error(IcmpErrorKind::NoRoute, source(), &echo).unwrap();
    assert!(
        build_icmp_error(IcmpErrorKind::TimeExceeded, source(), &unreachable).is_none(),
        "must not generate ICMP about ICMP errors"
    );

    // Echo requests/replies are fine to report about.
    assert!(build_icmp_error(IcmpErrorKind::TimeExceeded, source(), &echo).is_some());
}

#[test]
fn v6_without_gateway_yields_none() {
    let orig = build_ipv6_icmpv6_echo(
        v6("fd00::2"),
        v6("2001:db8::1"),
        false,
        1,
        1,
        b"",
        64,
    );
    let no_v6 = IcmpSource {
        v4: v4("10.100.0.1"),
        v6: None,
    };
    assert!(build_icmp_error(IcmpErrorKind::NoRoute, no_v6, &orig).is_none());
}

/// Reference TCP checksum for verification, written independently of
/// the code under test.
fn tcp_checksum_valid(packet: &[u8]) -> bool {
    let ip_len = if packet[0] >> 4 == 4 {
        ((packet[0] & 0x0f) as usize) * 4
    } else {
        40
    };
    let l4 = &packet[ip_len..];
    internet_checksum(pseudo_sum(&packet[..ip_len], l4.len()), &[l4]) == 0
}

fn ipv4_header_valid(packet: &[u8]) -> bool {
    internet_checksum(0, &[&packet[..20]]) == 0
}

/// Build a v4 TCP aggregate as the kernel would hand it to us: header
/// checksum filled, TCP checksum left partial (we zero it; the code
/// recomputes from scratch anyway).
fn tcp4_aggregate(payload_len: usize, flags: u8) -> Vec<u8> {
    let mut p = vec![0u8; 40 + payload_len];
    p[0] = 0x45;
    let total = (40 + payload_len) as u16;
    p[2..4].copy_from_slice(&total.to_be_bytes());
    p[4..6].copy_from_slice(&1000u16.to_be_bytes()); // ID
    p[8] = 64;
    p[9] = 6; // TCP
    p[12..16].copy_from_slice(&[10, 100, 0, 2]);
    p[16..20].copy_from_slice(&[10, 99, 0, 2]);
    let sum = internet_checksum(0, &[&p[..20]]);
    p[10..12].copy_from_slice(&sum.to_be_bytes());
    // TCP header
    p[20..22].copy_from_slice(&5555u16.to_be_bytes());
    p[22..24].copy_from_slice(&80u16.to_be_bytes());
    p[24..28].copy_from_slice(&1_000_000u32.to_be_bytes()); // seq
    p[32] = 5 << 4; // doff = 20
    p[33] = flags;
    for (i, b) in p[40..].iter_mut().enumerate() {
        *b = i as u8;
    }
    p
}

fn hdr_tso4(mss: u16) -> VnetHdr {
    VnetHdr {
        flags: VIRTIO_NET_HDR_F_NEEDS_CSUM,
        gso_type: VIRTIO_NET_HDR_GSO_TCPV4,
        hdr_len: 40,
        gso_size: mss,
        csum_start: 20,
        csum_offset: 16,
    }
}

#[test]
fn header_round_trips() {
    let mut raw = [0u8; VNET_HDR_LEN];
    raw[0] = VIRTIO_NET_HDR_F_NEEDS_CSUM;
    raw[1] = VIRTIO_NET_HDR_GSO_TCPV4 | VIRTIO_NET_HDR_GSO_ECN;
    raw[2..4].copy_from_slice(&40u16.to_le_bytes());
    raw[4..6].copy_from_slice(&1360u16.to_le_bytes());
    raw[6..8].copy_from_slice(&20u16.to_le_bytes());
    raw[8..10].copy_from_slice(&16u16.to_le_bytes());
    let h = VnetHdr::parse(&raw).unwrap();
    assert_eq!(h.gso_type, VIRTIO_NET_HDR_GSO_TCPV4, "ECN bit masked off");
    assert_eq!((h.hdr_len, h.gso_size), (40, 1360));
    assert_eq!((h.csum_start, h.csum_offset), (20, 16));
    assert!(VnetHdr::parse(&raw[..9]).is_none());
}

#[test]
fn tso4_resegments_with_valid_headers_and_checksums() {
    // 2.5 segments of 1000 bytes: PSH|ACK on the wire.
    let frame = tcp4_aggregate(2500, 0x18);
    let mut out = Vec::new();
    expand(&hdr_tso4(1000), Bytes::from(frame), &mut out).unwrap();
    assert_eq!(out.len(), 3);
    assert_eq!(out[0].len(), 40 + 1000);
    assert_eq!(out[2].len(), 40 + 500);
    for (i, seg) in out.iter().enumerate() {
        assert!(ipv4_header_valid(seg), "segment {i} IP checksum");
        assert!(tcp_checksum_valid(seg), "segment {i} TCP checksum");
        let seq = u32::from_be_bytes(seg[24..28].try_into().unwrap());
        assert_eq!(seq, 1_000_000 + (i as u32) * 1000);
        let id = u16::from_be_bytes([seg[4], seg[5]]);
        assert_eq!(id, 1000 + i as u16);
        let flags = seg[33];
        if i == 2 {
            assert_eq!(flags & 0x08, 0x08, "PSH on the last segment");
        } else {
            assert_eq!(flags & 0x09, 0, "no FIN/PSH mid-burst");
        }
        // Payload content is contiguous across segments.
        assert_eq!(seg[40], ((i * 1000) % 256) as u8);
    }
}

#[test]
fn tso6_resegments_with_valid_checksums() {
    let payload_len = 2200usize;
    let mut p = vec![0u8; 60 + payload_len];
    p[0] = 0x60;
    p[4..6].copy_from_slice(&((20 + payload_len) as u16).to_be_bytes());
    p[6] = 6; // TCP
    p[7] = 64;
    p[8..24].copy_from_slice(&[0xfd, 0, 0, 0, 0, 0, 0, 0, 0, 0, 0, 0, 0, 0, 0, 1]);
    p[24..40].copy_from_slice(&[0xfd, 0, 0, 0, 0, 0, 0, 0, 0, 0, 0, 0, 0, 0, 0, 2]);
    p[44..48].copy_from_slice(&7_000u32.to_be_bytes()); // seq
    p[52] = 5 << 4;
    p[53] = 0x10; // ACK
    let hdr = VnetHdr {
        flags: VIRTIO_NET_HDR_F_NEEDS_CSUM,
        gso_type: VIRTIO_NET_HDR_GSO_TCPV6,
        hdr_len: 60,
        gso_size: 1000,
        csum_start: 40,
        csum_offset: 16,
    };
    let mut out = Vec::new();
    expand(&hdr, Bytes::from(p), &mut out).unwrap();
    assert_eq!(out.len(), 3);
    for (i, seg) in out.iter().enumerate() {
        assert!(tcp_checksum_valid(seg), "segment {i} TCP checksum");
        let plen = u16::from_be_bytes([seg[4], seg[5]]) as usize;
        assert_eq!(plen + 40, seg.len(), "v6 payload length");
        let seq = u32::from_be_bytes(seg[44..48].try_into().unwrap());
        assert_eq!(seq, 7_000 + (i as u32) * 1000);
    }
}

#[test]
fn non_gso_with_partial_checksum_is_completed() {
    // A UDP packet with NEEDS_CSUM: csum_start 20 (L4), offset 6.
    let mut p = vec![0u8; 28 + 4];
    p[0] = 0x45;
    p[2..4].copy_from_slice(&32u16.to_be_bytes());
    p[8] = 64;
    p[9] = 17;
    p[12..16].copy_from_slice(&[10, 100, 0, 2]);
    p[16..20].copy_from_slice(&[10, 99, 0, 2]);
    let sum = internet_checksum(0, &[&p[..20]]);
    p[10..12].copy_from_slice(&sum.to_be_bytes());
    p[20..22].copy_from_slice(&53u16.to_be_bytes());
    p[22..24].copy_from_slice(&53u16.to_be_bytes());
    p[24..26].copy_from_slice(&12u16.to_be_bytes());
    p[28..32].copy_from_slice(b"ping");
    let hdr = VnetHdr {
        flags: VIRTIO_NET_HDR_F_NEEDS_CSUM,
        gso_type: VIRTIO_NET_HDR_GSO_NONE,
        hdr_len: 0,
        gso_size: 0,
        csum_start: 20,
        csum_offset: 6,
    };
    let mut out = Vec::new();
    expand(&hdr, Bytes::from(p), &mut out).unwrap();
    assert_eq!(out.len(), 1);
    let seg = &out[0];
    let l4 = &seg[20..];
    assert_eq!(
        internet_checksum(pseudo_sum(&seg[..20], l4.len()), &[l4]),
        0,
        "completed UDP checksum verifies"
    );
}

#[test]
fn non_gso_without_flags_passes_through_untouched() {
    let p = Bytes::from_static(&[0x45, 0, 0, 20]);
    let hdr = VnetHdr {
        flags: 0,
        gso_type: VIRTIO_NET_HDR_GSO_NONE,
        hdr_len: 0,
        gso_size: 0,
        csum_start: 0,
        csum_offset: 0,
    };
    let mut out = Vec::new();
    expand(&hdr, p.clone(), &mut out).unwrap();
    assert_eq!(out, vec![p]);
}

#[test]
fn malformed_frames_are_rejected() {
    let mut out = Vec::new();
    // Unknown GSO type.
    let bad = VnetHdr {
        gso_type: 3, // GSO_UDP, not negotiated
        ..hdr_tso4(1000)
    };
    assert_eq!(
        expand(&bad, Bytes::from(tcp4_aggregate(100, 0x10)), &mut out),
        Err(VnetError::UnsupportedGso(3))
    );
    // GSO frame with no payload.
    assert!(expand(&hdr_tso4(1000), Bytes::from(vec![0u8; 40]), &mut out).is_err());
    // mss 0.
    assert!(
        expand(
            &hdr_tso4(0),
            Bytes::from(tcp4_aggregate(100, 0x10)),
            &mut out
        )
        .is_err()
    );
    assert!(out.is_empty());
}
