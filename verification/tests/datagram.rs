//! HTTP Datagrams, their contexts, and the provisional codepoints.

use bytes::{Bytes, BytesMut};
use straw::capsule::codec::write_varint;
use straw::codepoints::{
    CAPSULE_COMPRESSION_ACK, CAPSULE_COMPRESSION_ASSIGN, CAPSULE_COMPRESSION_CLOSE,
    CAPSULE_OBSERVED_ADDRESS,
};
use straw::datagram::context::{ContextKind, ContextRegistry};
use straw::datagram::{
    datagram_overhead, decode_quic_datagram, encode_quic_datagram, max_ip_packet_size,
    quarter_stream_id, IpProxyingDatagram, CONTEXT_ID_IP_PACKET,
};

#[test]
fn roundtrip_ip_packet_datagram() {
    let packet = Bytes::from_static(&[0x45, 0x00, 0x00, 0x14, 1, 2, 3, 4]);
    let dg = IpProxyingDatagram::ip_packet(packet.clone());

    let wire = encode_quic_datagram(quarter_stream_id(0), &dg);
    let (qsid, decoded) = decode_quic_datagram(&wire).unwrap();

    assert_eq!(qsid, 0);
    assert_eq!(decoded.context_id, CONTEXT_ID_IP_PACKET);
    assert_eq!(decoded.payload, packet);
}

#[test]
fn roundtrip_nonzero_stream_and_context() {
    let dg = IpProxyingDatagram {
        context_id: 42,
        payload: Bytes::from_static(b"opaque"),
    };
    // Stream ID 16 -> QSID 4.
    let wire = encode_quic_datagram(quarter_stream_id(16), &dg);
    let (qsid, decoded) = decode_quic_datagram(&wire).unwrap();

    assert_eq!(qsid, 4);
    assert_eq!(decoded, dg);
}

#[test]
fn decode_empty_payload() {
    // A datagram carrying only a context ID has an empty payload.
    let mut buf = BytesMut::new();
    write_varint(&mut buf, 7).unwrap(); // qsid
    write_varint(&mut buf, 0).unwrap(); // context id
    let (qsid, dg) = decode_quic_datagram(&buf.freeze()).unwrap();
    assert_eq!(qsid, 7);
    assert_eq!(dg.context_id, 0);
    assert!(dg.payload.is_empty());
}

#[test]
fn decode_truncated_fails() {
    let result = decode_quic_datagram(&Bytes::new());
    assert!(result.is_err());
}

#[test]
fn overhead_and_usable_size_track_the_varint_widths() {
    // qsid 0 and context 0 are one byte each.
    assert_eq!(datagram_overhead(0), 2);
    assert_eq!(max_ip_packet_size(1200, 0), Some(1198));
    // A qsid past 63 needs two bytes, past 16383 needs four.
    assert_eq!(datagram_overhead(64), 3);
    assert_eq!(datagram_overhead(16384), 5);
    assert_eq!(max_ip_packet_size(1200, 16384), Some(1195));
}

#[test]
fn usable_size_is_none_when_framing_does_not_fit() {
    assert_eq!(max_ip_packet_size(1, 0), None);
    // Exactly the framing leaves room for a zero-length packet.
    assert_eq!(max_ip_packet_size(2, 0), Some(0));
}

#[test]
fn encoded_len_matches() {
    let dg = IpProxyingDatagram {
        context_id: 16384, // needs a 4-byte varint
        payload: Bytes::from_static(&[0; 10]),
    };
    let mut buf = BytesMut::new();
    dg.encode(&mut buf);
    assert_eq!(buf.len(), dg.encoded_len());
}

#[test]
fn context_zero_is_ip_packet() {
    let reg = ContextRegistry::new();
    assert_eq!(reg.lookup(0), Some(ContextKind::IpPacket));
}

#[test]
fn unknown_context_is_none() {
    let reg = ContextRegistry::new();
    assert_eq!(reg.lookup(2), None);
}

/// The provisional capsule types are distinct and in the expected block.
#[test]
fn capsule_codepoints_are_distinct() {
    let all = [
        CAPSULE_COMPRESSION_ASSIGN,
        CAPSULE_COMPRESSION_ACK,
        CAPSULE_COMPRESSION_CLOSE,
        CAPSULE_OBSERVED_ADDRESS,
    ];
    let mut seen = std::collections::HashSet::new();
    for c in all {
        assert!((0x11..=0x15).contains(&c));
        assert!(seen.insert(c), "duplicate capsule codepoint {c:#x}");
    }
}
