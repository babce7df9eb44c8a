//! Capsules and the variable-length integers they are made of.

use bytes::{Buf, BufMut, Bytes, BytesMut};
use straw::capsule::codec::{read_varint, varint_len, write_varint, VARINT_MAX};
use straw::capsule::{
    decode_capsule, encode_capsule, merge_ranges, AddressAssign, AddressRequest, AssignedAddress,
    Capsule, CapsuleBuffer, IpAddressRange, RequestedAddress, RouteAdvertisement,
};
use straw::error::DecodeError;
use straw::net::{IpAddr, IpNet, Ipv4Addr, Ipv6Addr};

fn v4(a: [u8; 4]) -> IpAddr {
    IpAddr::V4(Ipv4Addr::new(a[0], a[1], a[2], a[3]))
}

fn v6(a: [u8; 16]) -> IpAddr {
    IpAddr::V6(Ipv6Addr { bits: u128::from_be_bytes(a) })
}

fn ip(s: &str) -> IpAddr {
    match s.parse().unwrap() {
        core::net::IpAddr::V4(a) => IpAddr::V4(Ipv4Addr { bits: a.into() }),
        core::net::IpAddr::V6(a) => IpAddr::V6(Ipv6Addr { bits: a.into() }),
    }
}

fn net(s: &str) -> IpNet {
    let (a, len) = s.split_once('/').unwrap();
    IpNet::new(ip(a), len.parse().unwrap()).unwrap()
}

fn roundtrip(val: u64) {
    let mut buf = BytesMut::new();
    write_varint(&mut buf, val).unwrap();
    assert_eq!(buf.len(), varint_len(val).unwrap());
    let decoded = read_varint(&mut &buf[..]).unwrap();
    assert_eq!(decoded, val);
}

#[test]
fn test_zero() {
    roundtrip(0);
}

#[test]
fn test_one_byte_max() {
    roundtrip(63);
}

#[test]
fn test_two_byte_min() {
    roundtrip(64);
}

#[test]
fn test_two_byte_max() {
    roundtrip(16383);
}

#[test]
fn test_four_byte_min() {
    roundtrip(16384);
}

#[test]
fn test_four_byte_max() {
    roundtrip(1_073_741_823);
}

#[test]
fn test_eight_byte_min() {
    roundtrip(1_073_741_824);
}

#[test]
fn test_eight_byte_max() {
    roundtrip(VARINT_MAX);
}

#[test]
fn test_encoding_lengths() {
    assert_eq!(varint_len(0).unwrap(), 1);
    assert_eq!(varint_len(63).unwrap(), 1);
    assert_eq!(varint_len(64).unwrap(), 2);
    assert_eq!(varint_len(16383).unwrap(), 2);
    assert_eq!(varint_len(16384).unwrap(), 4);
    assert_eq!(varint_len(1_073_741_823).unwrap(), 4);
    assert_eq!(varint_len(1_073_741_824).unwrap(), 8);
    assert_eq!(varint_len(VARINT_MAX).unwrap(), 8);
}

#[test]
fn test_overflow_rejected() {
    assert!(varint_len(VARINT_MAX + 1).is_err());
    let mut buf = BytesMut::new();
    assert!(write_varint(&mut buf, VARINT_MAX + 1).is_err());
}

#[test]
fn test_underflow_empty_buffer() {
    let mut buf = &[][..];
    assert!(matches!(read_varint(&mut buf), Err(DecodeError::Underflow)));
}

#[test]
fn test_underflow_truncated() {
    // A 2-byte varint header (0x40) but only 1 byte in buffer
    let mut buf = &[0x40][..];
    assert!(matches!(read_varint(&mut buf), Err(DecodeError::Underflow)));
}

#[test]
fn test_rfc9000_examples() {
    // RFC 9000 §A.1 sample encodings
    let cases: &[(&[u8], u64)] = &[
        (
            &[0xc2, 0x19, 0x7c, 0x5e, 0xff, 0x14, 0xe8, 0x8c],
            151_288_809_941_952_652,
        ),
        (&[0x9d, 0x7f, 0x3e, 0x7d], 494_878_333),
        (&[0x7b, 0xbd], 15_293),
        (&[0x25], 37),
    ];
    for &(encoded, expected) in cases {
        let mut cursor = &encoded[..];
        let decoded = read_varint(&mut cursor).unwrap();
        assert_eq!(decoded, expected);

        // Verify our encoder produces the same bytes
        let mut buf = BytesMut::new();
        write_varint(&mut buf, expected).unwrap();
        assert_eq!(&buf[..], encoded);
    }
}

#[test]
fn test_sequential_read_write() {
    let values = [0u64, 42, 300, 100_000, 2_000_000_000];
    let mut buf = BytesMut::new();
    for &v in &values {
        write_varint(&mut buf, v).unwrap();
    }
    let mut reader = &buf[..];
    for &v in &values {
        assert_eq!(read_varint(&mut reader).unwrap(), v);
    }
    assert_eq!(reader.remaining(), 0);
}

fn make_v4_addr(request_id: u64, addr: [u8; 4], prefix_length: u8) -> AssignedAddress {
    AssignedAddress {
        request_id,
        ip_version: 4,
        ip_address: v4(addr),
        prefix_length,
    }
}

fn make_v6_addr(request_id: u64, addr: [u8; 16], prefix_length: u8) -> AssignedAddress {
    AssignedAddress {
        request_id,
        ip_version: 6,
        ip_address: v6(addr),
        prefix_length,
    }
}

#[test]
fn address_assign_test_roundtrip_empty() {
    let original = AddressAssign {
        assigned_addresses: vec![],
    };
    let mut buf = BytesMut::new();
    original.encode_payload(&mut buf);
    assert!(buf.is_empty());
    let decoded = AddressAssign::decode(&buf).unwrap();
    assert_eq!(original, decoded);
}

#[test]
fn address_assign_test_roundtrip_single_v4() {
    let original = AddressAssign {
        assigned_addresses: vec![make_v4_addr(0, [192, 0, 2, 42], 32)],
    };
    let mut buf = BytesMut::new();
    original.encode_payload(&mut buf);
    let decoded = AddressAssign::decode(&buf).unwrap();
    assert_eq!(original, decoded);
}

#[test]
fn address_assign_test_roundtrip_single_v6() {
    let mut addr = [0u8; 16];
    addr[0] = 0xfd;
    addr[15] = 0x01;
    let original = AddressAssign {
        assigned_addresses: vec![make_v6_addr(5, addr, 128)],
    };
    let mut buf = BytesMut::new();
    original.encode_payload(&mut buf);
    let decoded = AddressAssign::decode(&buf).unwrap();
    assert_eq!(original, decoded);
}

#[test]
fn test_roundtrip_mixed_v4_v6() {
    let mut v6_addr = [0u8; 16];
    v6_addr[0] = 0x20;
    v6_addr[1] = 0x01;
    let original = AddressAssign {
        assigned_addresses: vec![
            make_v4_addr(0, [10, 0, 0, 1], 24),
            make_v6_addr(1, v6_addr, 64),
            make_v4_addr(2, [172, 16, 0, 1], 16),
        ],
    };
    let mut buf = BytesMut::new();
    original.encode_payload(&mut buf);
    let decoded = AddressAssign::decode(&buf).unwrap();
    assert_eq!(original, decoded);
}

#[test]
fn test_roundtrip_unprompted_and_requested() {
    let original = AddressAssign {
        assigned_addresses: vec![
            make_v4_addr(0, [10, 100, 0, 1], 32), // unprompted (request_id=0)
            make_v4_addr(42, [10, 100, 0, 2], 32), // in response to request 42
        ],
    };
    let mut buf = BytesMut::new();
    original.encode_payload(&mut buf);
    let decoded = AddressAssign::decode(&buf).unwrap();
    assert_eq!(original, decoded);
}

#[test]
fn test_roundtrip_large_request_id() {
    // request_id that requires multi-byte VarInt encoding
    let original = AddressAssign {
        assigned_addresses: vec![make_v4_addr(100_000, [10, 0, 0, 1], 32)],
    };
    let mut buf = BytesMut::new();
    original.encode_payload(&mut buf);
    let decoded = AddressAssign::decode(&buf).unwrap();
    assert_eq!(original, decoded);
}

#[test]
fn address_assign_test_full_capsule_encode() {
    let original = AddressAssign {
        assigned_addresses: vec![make_v4_addr(0, [192, 0, 2, 42], 32)],
    };
    let mut buf = BytesMut::new();
    original.encode(&mut buf);

    // First byte should be capsule type 0x01
    assert_eq!(buf[0], 0x01);
    // Second byte is payload length (VarInt)
    // payload = varint(0)=1 + ip_version=1 + ipv4=4 + prefix=1 = 7
    assert_eq!(buf[1], 7);
}

#[test]
fn address_assign_test_invalid_ip_version() {
    // Craft a payload with ip_version=5
    let mut buf = BytesMut::new();
    write_varint(&mut buf, 0).unwrap(); // request_id
    buf.put_u8(5); // invalid ip_version
    buf.put_slice(&[0u8; 4]); // some bytes
    buf.put_u8(32);

    let result = AddressAssign::decode(&buf);
    assert!(matches!(result, Err(DecodeError::InvalidIpVersion(5))));
}

#[test]
fn test_invalid_prefix_length_v4() {
    let mut buf = BytesMut::new();
    write_varint(&mut buf, 0).unwrap();
    buf.put_u8(4);
    buf.put_slice(&[10, 0, 0, 1]);
    buf.put_u8(33); // > 32 for IPv4

    let result = AddressAssign::decode(&buf);
    assert!(matches!(
        result,
        Err(DecodeError::InvalidPrefixLength {
            ip_version: 4,
            prefix_len: 33
        })
    ));
}

#[test]
fn test_invalid_prefix_length_v6() {
    let mut buf = BytesMut::new();
    write_varint(&mut buf, 0).unwrap();
    buf.put_u8(6);
    buf.put_slice(&[0u8; 16]);
    buf.put_u8(129); // > 128 for IPv6

    let result = AddressAssign::decode(&buf);
    assert!(matches!(
        result,
        Err(DecodeError::InvalidPrefixLength {
            ip_version: 6,
            prefix_len: 129
        })
    ));
}

#[test]
fn address_assign_test_truncated_payload() {
    // Only request_id + ip_version, no IP address bytes
    let mut buf = BytesMut::new();
    write_varint(&mut buf, 0).unwrap();
    buf.put_u8(4);
    // Missing 4 bytes of IPv4 address

    let result = AddressAssign::decode(&buf);
    assert!(matches!(result, Err(DecodeError::BufferTooShort { .. })));
}

#[test]
fn test_prefix_zero() {
    // prefix_length=0 is valid (default route)
    let original = AddressAssign {
        assigned_addresses: vec![make_v4_addr(0, [0, 0, 0, 0], 0)],
    };
    let mut buf = BytesMut::new();
    original.encode_payload(&mut buf);
    let decoded = AddressAssign::decode(&buf).unwrap();
    assert_eq!(original, decoded);
}

fn make_v4_req(request_id: u64, addr: [u8; 4], prefix_length: u8) -> RequestedAddress {
    RequestedAddress {
        request_id,
        ip_version: 4,
        ip_address: v4(addr),
        prefix_length,
    }
}

fn make_v6_req(request_id: u64, addr: [u8; 16], prefix_length: u8) -> RequestedAddress {
    RequestedAddress {
        request_id,
        ip_version: 6,
        ip_address: v6(addr),
        prefix_length,
    }
}

#[test]
fn address_request_test_roundtrip_single_v4() {
    let original = AddressRequest {
        requested_addresses: vec![make_v4_req(1, [10, 0, 0, 1], 32)],
    };
    let mut buf = BytesMut::new();
    original.encode_payload(&mut buf);
    let decoded = AddressRequest::decode(&buf).unwrap();
    assert_eq!(original, decoded);
}

#[test]
fn address_request_test_roundtrip_single_v6() {
    let mut addr = [0u8; 16];
    addr[0] = 0xfd;
    let original = AddressRequest {
        requested_addresses: vec![make_v6_req(1, addr, 128)],
    };
    let mut buf = BytesMut::new();
    original.encode_payload(&mut buf);
    let decoded = AddressRequest::decode(&buf).unwrap();
    assert_eq!(original, decoded);
}

#[test]
fn test_roundtrip_wildcard_address() {
    // 0.0.0.0 means "server picks for me"
    let original = AddressRequest {
        requested_addresses: vec![make_v4_req(1, [0, 0, 0, 0], 32)],
    };
    let mut buf = BytesMut::new();
    original.encode_payload(&mut buf);
    let decoded = AddressRequest::decode(&buf).unwrap();
    assert_eq!(original, decoded);
}

#[test]
fn test_roundtrip_multiple() {
    let mut v6_addr = [0u8; 16];
    v6_addr[0] = 0x20;
    v6_addr[1] = 0x01;
    let original = AddressRequest {
        requested_addresses: vec![
            make_v4_req(1, [10, 0, 0, 0], 24),
            make_v6_req(2, v6_addr, 64),
            make_v4_req(3, [0, 0, 0, 0], 32),
        ],
    };
    let mut buf = BytesMut::new();
    original.encode_payload(&mut buf);
    let decoded = AddressRequest::decode(&buf).unwrap();
    assert_eq!(original, decoded);
}

#[test]
fn test_reject_request_id_zero() {
    let mut buf = BytesMut::new();
    write_varint(&mut buf, 0).unwrap(); // request_id = 0 (invalid)
    buf.put_u8(4);
    buf.put_slice(&[10, 0, 0, 1]);
    buf.put_u8(32);

    let result = AddressRequest::decode(&buf);
    assert!(matches!(result, Err(DecodeError::InvalidVarInt)));
}

#[test]
fn test_reject_empty_list() {
    let buf = BytesMut::new();
    let result = AddressRequest::decode(&buf);
    assert!(matches!(result, Err(DecodeError::Underflow)));
}

#[test]
fn address_request_test_full_capsule_encode() {
    let original = AddressRequest {
        requested_addresses: vec![make_v4_req(1, [10, 0, 0, 1], 32)],
    };
    let mut buf = BytesMut::new();
    original.encode(&mut buf);

    // First byte should be capsule type 0x02
    assert_eq!(buf[0], 0x02);
    // payload = varint(1)=1 + ip_version=1 + ipv4=4 + prefix=1 = 7
    assert_eq!(buf[1], 7);
}

#[test]
fn address_request_test_invalid_ip_version() {
    let mut buf = BytesMut::new();
    write_varint(&mut buf, 1).unwrap();
    buf.put_u8(5); // invalid
    buf.put_slice(&[0u8; 4]);
    buf.put_u8(32);

    let result = AddressRequest::decode(&buf);
    assert!(matches!(result, Err(DecodeError::InvalidIpVersion(5))));
}

#[test]
fn test_invalid_prefix_length() {
    let mut buf = BytesMut::new();
    write_varint(&mut buf, 1).unwrap();
    buf.put_u8(4);
    buf.put_slice(&[10, 0, 0, 1]);
    buf.put_u8(33); // > 32

    let result = AddressRequest::decode(&buf);
    assert!(matches!(
        result,
        Err(DecodeError::InvalidPrefixLength { .. })
    ));
}

#[test]
fn address_request_test_truncated_payload() {
    let mut buf = BytesMut::new();
    write_varint(&mut buf, 1).unwrap();
    buf.put_u8(4);
    // Missing IPv4 address bytes

    let result = AddressRequest::decode(&buf);
    assert!(matches!(result, Err(DecodeError::BufferTooShort { .. })));
}

fn make_v4_range(start: [u8; 4], end: [u8; 4], ip_protocol: u8) -> IpAddressRange {
    IpAddressRange {
        ip_version: 4,
        start_ip: v4(start),
        end_ip: v4(end),
        ip_protocol,
    }
}

fn make_v6_range(start: [u8; 16], end: [u8; 16], ip_protocol: u8) -> IpAddressRange {
    IpAddressRange {
        ip_version: 6,
        start_ip: v6(start),
        end_ip: v6(end),
        ip_protocol,
    }
}

#[test]
fn route_advertisement_test_roundtrip_empty() {
    let original = RouteAdvertisement {
        ip_address_ranges: vec![],
    };
    let mut buf = BytesMut::new();
    original.encode_payload(&mut buf);
    assert!(buf.is_empty());
    let decoded = RouteAdvertisement::decode(&buf).unwrap();
    assert_eq!(original, decoded);
}

#[test]
fn test_roundtrip_full_tunnel_v4() {
    let original = RouteAdvertisement {
        ip_address_ranges: vec![make_v4_range([0, 0, 0, 0], [255, 255, 255, 255], 0)],
    };
    let mut buf = BytesMut::new();
    original.encode_payload(&mut buf);
    let decoded = RouteAdvertisement::decode(&buf).unwrap();
    assert_eq!(original, decoded);
}

#[test]
fn route_advertisement_test_roundtrip_single_v6() {
    let mut start = [0u8; 16];
    start[0] = 0x20;
    start[1] = 0x01;
    let mut end = [0xffu8; 16];
    end[0] = 0x20;
    end[1] = 0x01;

    let original = RouteAdvertisement {
        ip_address_ranges: vec![make_v6_range(start, end, 0)],
    };
    let mut buf = BytesMut::new();
    original.encode_payload(&mut buf);
    let decoded = RouteAdvertisement::decode(&buf).unwrap();
    assert_eq!(original, decoded);
}

#[test]
fn test_roundtrip_specific_protocol() {
    let original = RouteAdvertisement {
        ip_address_ranges: vec![make_v4_range(
            [10, 0, 0, 0],
            [10, 0, 0, 255],
            6, // TCP only
        )],
    };
    let mut buf = BytesMut::new();
    original.encode_payload(&mut buf);
    let decoded = RouteAdvertisement::decode(&buf).unwrap();
    assert_eq!(original, decoded);
}

#[test]
fn test_encode_sorts_ranges() {
    // Input out of order: protocol 17 before protocol 6
    let original = RouteAdvertisement {
        ip_address_ranges: vec![
            make_v4_range([10, 0, 0, 0], [10, 0, 0, 255], 17),
            make_v4_range([10, 0, 0, 0], [10, 0, 0, 255], 6),
        ],
    };
    let mut buf = BytesMut::new();
    original.encode_payload(&mut buf);

    let decoded = RouteAdvertisement::decode(&buf).unwrap();
    // Should be sorted: protocol 6 before 17
    assert_eq!(decoded.ip_address_ranges[0].ip_protocol, 6);
    assert_eq!(decoded.ip_address_ranges[1].ip_protocol, 17);
}

#[test]
fn test_encode_sorts_v4_before_v6() {
    let v6_start = [0u8; 16];
    let mut v6_end = [0u8; 16];
    v6_end[15] = 0xff;

    let original = RouteAdvertisement {
        ip_address_ranges: vec![
            make_v6_range(v6_start, v6_end, 0),
            make_v4_range([10, 0, 0, 0], [10, 0, 0, 255], 0),
        ],
    };
    let mut buf = BytesMut::new();
    original.encode_payload(&mut buf);

    let decoded = RouteAdvertisement::decode(&buf).unwrap();
    assert_eq!(decoded.ip_address_ranges[0].ip_version, 4);
    assert_eq!(decoded.ip_address_ranges[1].ip_version, 6);
}

#[test]
fn test_encode_sorts_by_start_ip() {
    let original = RouteAdvertisement {
        ip_address_ranges: vec![
            make_v4_range([10, 1, 0, 0], [10, 1, 0, 255], 0),
            make_v4_range([10, 0, 0, 0], [10, 0, 0, 255], 0),
        ],
    };
    let mut buf = BytesMut::new();
    original.encode_payload(&mut buf);

    let decoded = RouteAdvertisement::decode(&buf).unwrap();
    assert_eq!(
        decoded.ip_address_ranges[0].start_ip,
        IpAddr::V4(Ipv4Addr::new(10, 0, 0, 0))
    );
    assert_eq!(
        decoded.ip_address_ranges[1].start_ip,
        IpAddr::V4(Ipv4Addr::new(10, 1, 0, 0))
    );
}

#[test]
fn test_decode_rejects_bad_order() {
    // Manually encode out-of-order ranges (bypass encode which sorts)
    let mut buf = BytesMut::new();
    // Range 1: 10.1.0.0 (comes after 10.0.0.0)
    buf.put_slice(&[4, 10, 1, 0, 0, 10, 1, 0, 255, 0]);
    // Range 2: 10.0.0.0 (should come first)
    buf.put_slice(&[4, 10, 0, 0, 0, 10, 0, 0, 255, 0]);

    let result = RouteAdvertisement::decode(&buf);
    assert!(result.is_err());
}

#[test]
fn test_decode_rejects_start_greater_than_end() {
    let mut buf = BytesMut::new();
    buf.put_u8(4); // ip_version
    buf.put_slice(&[10, 0, 0, 255]); // start
    buf.put_slice(&[10, 0, 0, 0]); // end < start
    buf.put_u8(0);

    let result = RouteAdvertisement::decode(&buf);
    assert!(result.is_err());
}

#[test]
fn route_advertisement_test_invalid_ip_version() {
    let mut buf = BytesMut::new();
    buf.put_u8(5); // invalid
    buf.put_slice(&[0u8; 8]);
    buf.put_u8(0);

    let result = RouteAdvertisement::decode(&buf);
    assert!(matches!(result, Err(DecodeError::InvalidIpVersion(5))));
}

#[test]
fn route_advertisement_test_truncated_payload() {
    let mut buf = BytesMut::new();
    buf.put_u8(4); // ip_version
    buf.put_slice(&[10, 0, 0, 0]); // start only, missing end + protocol

    let result = RouteAdvertisement::decode(&buf);
    assert!(matches!(result, Err(DecodeError::BufferTooShort { .. })));
}

#[test]
fn route_advertisement_test_full_capsule_encode() {
    let original = RouteAdvertisement {
        ip_address_ranges: vec![make_v4_range([0, 0, 0, 0], [255, 255, 255, 255], 0)],
    };
    let mut buf = BytesMut::new();
    original.encode(&mut buf);

    // Capsule type 0x03
    assert_eq!(buf[0], 0x03);
    // payload = ip_version(1) + start(4) + end(4) + protocol(1) = 10
    assert_eq!(buf[1], 10);
}

#[test]
fn test_roundtrip_multiple_mixed() {
    // Already in correct order: v4/proto0 < v4/proto6 < v6/proto0
    let v6_start = [0u8; 16];
    let v6_end = [0xffu8; 16];

    let original = RouteAdvertisement {
        ip_address_ranges: vec![
            make_v4_range([0, 0, 0, 0], [255, 255, 255, 255], 0),
            make_v4_range([10, 0, 0, 0], [10, 0, 0, 255], 6),
            make_v6_range(v6_start, v6_end, 0),
        ],
    };
    let mut buf = BytesMut::new();
    original.encode_payload(&mut buf);
    let decoded = RouteAdvertisement::decode(&buf).unwrap();
    assert_eq!(original, decoded);
}

#[test]
fn test_single_address_range() {
    // start == end is valid (single address)
    let original = RouteAdvertisement {
        ip_address_ranges: vec![make_v4_range([10, 0, 0, 1], [10, 0, 0, 1], 0)],
    };
    let mut buf = BytesMut::new();
    original.encode_payload(&mut buf);
    let decoded = RouteAdvertisement::decode(&buf).unwrap();
    assert_eq!(original, decoded);
}

#[test]
fn test_decode_address_assign() {
    let original = AddressAssign {
        assigned_addresses: vec![AssignedAddress {
            request_id: 0,
            ip_version: 4,
            ip_address: IpAddr::V4(Ipv4Addr::new(10, 0, 0, 1)),
            prefix_length: 32,
        }],
    };
    let mut buf = BytesMut::new();
    original.encode(&mut buf);

    let capsule = decode_capsule(&mut &buf[..]).unwrap();
    match capsule {
        Capsule::AddressAssign(c) => assert_eq!(c, original),
        _ => panic!("expected AddressAssign"),
    }
}

#[test]
fn test_decode_address_request() {
    let original = AddressRequest {
        requested_addresses: vec![RequestedAddress {
            request_id: 1,
            ip_version: 4,
            ip_address: IpAddr::V4(Ipv4Addr::new(0, 0, 0, 0)),
            prefix_length: 32,
        }],
    };
    let mut buf = BytesMut::new();
    original.encode(&mut buf);

    let capsule = decode_capsule(&mut &buf[..]).unwrap();
    match capsule {
        Capsule::AddressRequest(c) => assert_eq!(c, original),
        _ => panic!("expected AddressRequest"),
    }
}

#[test]
fn test_decode_route_advertisement() {
    let original = RouteAdvertisement {
        ip_address_ranges: vec![IpAddressRange {
            ip_version: 4,
            start_ip: IpAddr::V4(Ipv4Addr::new(0, 0, 0, 0)),
            end_ip: IpAddr::V4(Ipv4Addr::new(255, 255, 255, 255)),
            ip_protocol: 0,
        }],
    };
    let mut buf = BytesMut::new();
    original.encode(&mut buf);

    let capsule = decode_capsule(&mut &buf[..]).unwrap();
    match capsule {
        Capsule::RouteAdvertisement(c) => assert_eq!(c, original),
        _ => panic!("expected RouteAdvertisement"),
    }
}

#[test]
fn test_decode_unknown_capsule() {
    let mut buf = BytesMut::new();
    write_varint(&mut buf, 0xff).unwrap(); // unknown type
    write_varint(&mut buf, 3).unwrap(); // length = 3
    buf.extend_from_slice(&[0xaa, 0xbb, 0xcc]); // payload

    let capsule = decode_capsule(&mut &buf[..]).unwrap();
    match capsule {
        Capsule::Unknown { type_id, data } => {
            assert_eq!(type_id, 0xff);
            assert_eq!(&data[..], &[0xaa, 0xbb, 0xcc]);
        }
        _ => panic!("expected Unknown"),
    }
}

#[test]
fn test_decode_multiple_capsules() {
    let assign = AddressAssign {
        assigned_addresses: vec![AssignedAddress {
            request_id: 0,
            ip_version: 4,
            ip_address: IpAddr::V4(Ipv4Addr::new(10, 0, 0, 1)),
            prefix_length: 32,
        }],
    };
    let route = RouteAdvertisement {
        ip_address_ranges: vec![IpAddressRange {
            ip_version: 4,
            start_ip: IpAddr::V4(Ipv4Addr::new(0, 0, 0, 0)),
            end_ip: IpAddr::V4(Ipv4Addr::new(255, 255, 255, 255)),
            ip_protocol: 0,
        }],
    };

    let mut buf = BytesMut::new();
    assign.encode(&mut buf);
    route.encode(&mut buf);

    let mut reader = &buf[..];
    let c1 = decode_capsule(&mut reader).unwrap();
    let c2 = decode_capsule(&mut reader).unwrap();
    assert_eq!(reader.remaining(), 0);

    assert!(matches!(c1, Capsule::AddressAssign(_)));
    assert!(matches!(c2, Capsule::RouteAdvertisement(_)));
}

#[test]
fn test_encode_capsule_roundtrip() {
    let original = Capsule::AddressAssign(AddressAssign {
        assigned_addresses: vec![AssignedAddress {
            request_id: 5,
            ip_version: 6,
            ip_address: IpAddr::V6(Ipv6Addr { bits: 0xfd00 << 112 | 1 }),
            prefix_length: 128,
        }],
    });
    let mut buf = BytesMut::new();
    encode_capsule(&original, &mut buf);

    let decoded = decode_capsule(&mut &buf[..]).unwrap();
    match (&original, &decoded) {
        (Capsule::AddressAssign(a), Capsule::AddressAssign(b)) => assert_eq!(a, b),
        _ => panic!("mismatch"),
    }
}

#[test]
fn test_encode_unknown_capsule_roundtrip() {
    let original = Capsule::Unknown {
        type_id: 0x1234,
        data: Bytes::from_static(&[1, 2, 3, 4, 5]),
    };
    let mut buf = BytesMut::new();
    encode_capsule(&original, &mut buf);

    let decoded = decode_capsule(&mut &buf[..]).unwrap();
    match decoded {
        Capsule::Unknown { type_id, data } => {
            assert_eq!(type_id, 0x1234);
            assert_eq!(&data[..], &[1, 2, 3, 4, 5]);
        }
        _ => panic!("expected Unknown"),
    }
}

#[test]
fn test_range_from_net_and_contains() {
    let range = IpAddressRange::from_net(net("192.168.1.0/24"), 0);
    assert_eq!(range.start_ip, IpAddr::V4(Ipv4Addr::new(192, 168, 1, 0)));
    assert_eq!(range.end_ip, IpAddr::V4(Ipv4Addr::new(192, 168, 1, 255)));

    assert!(range.contains(&ip("192.168.1.7"), 6));
    assert!(!range.contains(&ip("192.168.2.7"), 6));
    assert!(!range.contains(&ip("::1"), 6), "wrong version");

    let udp_only = IpAddressRange {
        ip_protocol: 17,
        ..range
    };
    assert!(udp_only.contains(&ip("192.168.1.7"), 17));
    assert!(!udp_only.contains(&ip("192.168.1.7"), 6));
    // RFC 9484: ICMP is always allowed regardless of the protocol
    // scope — but only for in-range addresses.
    assert!(udp_only.contains(&ip("192.168.1.7"), 1));
    assert!(!udp_only.contains(&ip("192.168.2.7"), 1));

    let v6_udp = IpAddressRange::from_net(net("fd00::/64"), 17);
    assert!(v6_udp.contains(&ip("fd00::7"), 58), "ICMPv6");
    assert!(!v6_udp.contains(&ip("fd00::7"), 6));
}

#[test]
fn test_merge_ranges_coalesces_overlaps() {
    let a = IpAddressRange::from_net(net("10.0.0.0/24"), 0);
    let b = IpAddressRange::from_net(net("10.0.1.0/24"), 0); // adjacent
    let c = IpAddressRange::from_net(net("10.0.0.128/25"), 0); // inside a
    let d = IpAddressRange::from_net(net("172.16.0.0/16"), 0); // separate
    let e = IpAddressRange::from_net(net("fd00::/64"), 0); // v6

    let merged = merge_ranges(vec![d.clone(), c, b, a, e.clone()]);
    assert_eq!(merged.len(), 3);
    assert_eq!(merged[0].start_ip, ip("10.0.0.0"));
    assert_eq!(merged[0].end_ip, ip("10.0.1.255"));
    assert_eq!(merged[1], d);
    assert_eq!(merged[2], e);

    // Merged output is valid for a ROUTE_ADVERTISEMENT round trip.
    let ra = RouteAdvertisement {
        ip_address_ranges: merged,
    };
    let mut buf = BytesMut::new();
    ra.encode(&mut buf);
    assert!(matches!(
        decode_capsule(&mut &buf[..]).unwrap(),
        Capsule::RouteAdvertisement(_)
    ));
}

#[test]
fn test_capsule_buffer_split_across_chunks() {
    let assign = AddressAssign {
        assigned_addresses: vec![AssignedAddress {
            request_id: 0,
            ip_version: 4,
            ip_address: IpAddr::V4(Ipv4Addr::new(10, 0, 0, 1)),
            prefix_length: 32,
        }],
    };
    let route = RouteAdvertisement {
        ip_address_ranges: vec![IpAddressRange {
            ip_version: 4,
            start_ip: IpAddr::V4(Ipv4Addr::new(0, 0, 0, 0)),
            end_ip: IpAddr::V4(Ipv4Addr::new(255, 255, 255, 255)),
            ip_protocol: 0,
        }],
    };
    let mut wire = BytesMut::new();
    assign.encode(&mut wire);
    route.encode(&mut wire);

    let mut cb = CapsuleBuffer::new();
    // Feed one byte at a time; capsules must pop out exactly twice.
    let mut decoded = Vec::new();
    for byte in wire.iter() {
        cb.push(&[*byte][..]);
        while let Some(c) = cb.next_capsule().unwrap() {
            decoded.push(c);
        }
    }
    assert_eq!(decoded.len(), 2);
    assert!(matches!(decoded[0], Capsule::AddressAssign(_)));
    assert!(matches!(decoded[1], Capsule::RouteAdvertisement(_)));
    // Buffer fully drained.
    assert!(cb.next_capsule().unwrap().is_none());
}

#[test]
fn test_decode_truncated_capsule() {
    let mut buf = BytesMut::new();
    write_varint(&mut buf, 0x01).unwrap(); // type
    write_varint(&mut buf, 100).unwrap(); // length = 100 but no payload

    let result = decode_capsule(&mut &buf[..]);
    assert!(matches!(result, Err(DecodeError::BufferTooShort { .. })));
}
