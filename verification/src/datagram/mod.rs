//! HTTP Datagram handling (RFC 9297) for CONNECT-IP (RFC 9484 §6).
//!
//! Over QUIC, an HTTP Datagram rides a QUIC DATAGRAM frame:
//!
//! ```text
//! QUIC DATAGRAM Payload {
//!   Quarter Stream ID (i),      // request stream ID / 4
//!   HTTP Datagram Payload (..), // for connect-ip: Context ID + IP packet
//! }
//!
//! HTTP Datagram Payload {
//!   Context ID (i),             // 0 = full IP packet
//!   Payload (..),
//! }
//! ```

pub mod context;

use bytes::{Bytes, BytesMut};
use vstd::prelude::*;
use vstd::slice::slice_subrange;

use crate::buf::{
    append, buffered, copy_frozen, freeze, frozen, frozen_slice, has_room, new_buffer,
};
use crate::capsule::codec::{
    after_refused, lemma_varint_bytes, lemma_varint_roundtrip, read_varint, varint_at, varint_bytes,
    varint_len, varint_width, write_varint, VARINT_MAX,
};
use crate::error::DecodeError;

verus! {

/// Context ID 0: payload is a full IP packet (RFC 9484 §6).
pub const CONTEXT_ID_IP_PACKET: u64 = 0;

/// A stream-scoped HTTP Datagram payload for IP proxying.
#[derive(Debug, Clone, PartialEq, Eq)]
pub struct IpProxyingDatagram {
    /// VarInt context ID; 0 means the payload is a full IP packet.
    pub context_id: u64,
    /// Full IP packet when `context_id == 0`.
    pub payload: Bytes,
}

/// The context ID and payload at the front of an HTTP Datagram.
pub open spec fn datagram_at(s: Seq<u8>) -> Option<(u64, Seq<u8>)> {
    match varint_at(s) {
        None => None,
        Some((context_id, n)) => Some((context_id, s.skip(n as int))),
    }
}

/// The encoding of an HTTP Datagram payload.
pub open spec fn datagram_bytes(context_id: u64, payload: Seq<u8>) -> Seq<u8> {
    varint_bytes(context_id) + payload
}

/// The encoding of a QUIC DATAGRAM payload.
pub open spec fn quic_datagram_bytes(qsid: u64, context_id: u64, payload: Seq<u8>) -> Seq<u8> {
    varint_bytes(qsid) + datagram_bytes(context_id, payload)
}

/// The stream, context and payload a QUIC DATAGRAM carries.
pub open spec fn quic_datagram_at(s: Seq<u8>) -> Option<(u64, u64, Seq<u8>)> {
    match varint_at(s) {
        None => None,
        Some((qsid, n)) => match datagram_at(s.skip(n as int)) {
            None => None,
            Some((context_id, payload)) => Some((qsid, context_id, payload)),
        },
    }
}

/// Decoding what was encoded gives back the stream, the context and the
/// payload.
pub proof fn lemma_quic_datagram_roundtrip(qsid: u64, context_id: u64, payload: Seq<u8>)
    requires
        qsid <= VARINT_MAX,
        context_id <= VARINT_MAX,
    ensures
        quic_datagram_at(quic_datagram_bytes(qsid, context_id, payload)) == Some(
            (qsid, context_id, payload),
        ),
{
    let inner = datagram_bytes(context_id, payload);
    let s = quic_datagram_bytes(qsid, context_id, payload);
    lemma_varint_roundtrip(qsid, inner);
    lemma_varint_roundtrip(context_id, payload);
    assert(s.skip(varint_bytes(qsid).len() as int) =~= inner);
    assert(inner.skip(varint_bytes(context_id).len() as int) =~= payload);
}

/// A packet fits a datagram exactly if it is no larger than
/// [`max_ip_packet_size`] says: the framing takes [`datagram_overhead`] bytes.
pub proof fn lemma_usable_size(qsid: u64, packet: Seq<u8>, max_datagram_size: nat)
    requires
        qsid <= VARINT_MAX,
    ensures
        quic_datagram_bytes(qsid, CONTEXT_ID_IP_PACKET, packet).len() <= max_datagram_size
            <==> packet.len() + overhead(qsid) <= max_datagram_size,
{
    lemma_varint_bytes(qsid);
    lemma_varint_bytes(CONTEXT_ID_IP_PACKET);
}

/// Bytes of framing around an IP packet.
pub open spec fn overhead(qsid: u64) -> nat {
    varint_width(qsid) + 1
}

impl IpProxyingDatagram {
    /// Wrap an IP packet with context ID 0.
    pub fn ip_packet(packet: Bytes) -> (d: Self)
        ensures
            d.context_id == CONTEXT_ID_IP_PACKET,
            d.payload == packet,
    {
        IpProxyingDatagram { context_id: CONTEXT_ID_IP_PACKET, payload: packet }
    }

    /// Decode from an HTTP Datagram payload (after the Quarter Stream ID).
    /// The payload is everything behind the context ID.
    pub fn decode(buf: &mut &[u8]) -> (r: Result<Self, DecodeError>)
        ensures
            match datagram_at(old(buf)@) {
                Some((context_id, payload)) => {
                    &&& r is Ok
                    &&& r->Ok_0.context_id == context_id
                    &&& frozen(r->Ok_0.payload) == payload
                    &&& final(buf)@ == Seq::<u8>::empty()
                },
                None => r == Err::<Self, DecodeError>(DecodeError::Underflow) && final(buf)@
                    == after_refused(old(buf)@),
            },
    {
        let context_id: u64 = match read_varint(buf) {
            Ok(v) => v,
            Err(e) => {
                return Err(e);
            },
        };
        let rest: &[u8] = *buf;
        let payload = copy_frozen(rest);
        *buf = slice_subrange(rest, rest.len(), rest.len());
        proof {
            assert(buf@ =~= Seq::<u8>::empty());
        }
        Ok(IpProxyingDatagram { context_id, payload })
    }

    /// Encode into an HTTP Datagram payload (without the Quarter Stream ID).
    pub fn encode(&self, buf: &mut BytesMut)
        requires
            self.context_id <= VARINT_MAX,
            has_room(*old(buf), 8 + frozen(self.payload).len()),
        ensures
            buffered(*final(buf)) == buffered(*old(buf)) + datagram_bytes(
                self.context_id,
                frozen(self.payload),
            ),
    {
        proof {
            lemma_varint_bytes(self.context_id);
        }
        let _ = write_varint(buf, self.context_id);
        append(buf, frozen_slice(&self.payload));
        proof {
            assert(buffered(*buf) =~= buffered(*old(buf)) + datagram_bytes(
                self.context_id,
                frozen(self.payload),
            ));
        }
    }

    /// Encoded length (without the Quarter Stream ID).
    pub fn encoded_len(&self) -> (len: usize)
        requires
            self.context_id <= VARINT_MAX,
            frozen(self.payload).len() + 8 <= usize::MAX,
        ensures
            len == datagram_bytes(self.context_id, frozen(self.payload)).len(),
    {
        proof {
            lemma_varint_bytes(self.context_id);
        }
        let id_len: usize = match varint_len(self.context_id) {
            Ok(n) => n,
            Err(_) => 8,
        };
        id_len + frozen_slice(&self.payload).len()
    }
}

/// Bytes of framing a QUIC DATAGRAM adds around an IP packet on `qsid`:
/// the Quarter Stream ID and the context ID (RFC 9297 §2.1, RFC 9484 §6).
pub fn datagram_overhead(qsid: u64) -> (n: usize)
    ensures
        n == overhead(qsid),
{
    // Both lengths are bounded, so the fallbacks are the widest encoding
    // rather than a real possibility.
    let stream: usize = match varint_len(qsid) {
        Ok(n) => n,
        Err(_) => 8,
    };
    let context: usize = match varint_len(CONTEXT_ID_IP_PACKET) {
        Ok(n) => n,
        Err(_) => 8,
    };
    stream + context
}

/// The tunnel MTU toward a client on `qsid`: the largest IP packet that one
/// DATAGRAM of its connection holds, but no more than is `configured`. Where
/// the connection names no size, or too small a one, the configured MTU
/// stands.
pub fn path_mtu(max_datagram_size: Option<usize>, qsid: u64, configured: u16) -> (mtu: usize)
    ensures
        mtu == match max_datagram_size {
            Some(max) => if overhead(qsid) <= max && max - overhead(qsid) < configured {
                (max - overhead(qsid)) as usize
            } else {
                configured as usize
            },
            None => configured as usize,
        },
{
    match max_datagram_size {
        Some(max) => match max_ip_packet_size(max, qsid) {
            Some(fits) => if fits < configured as usize {
                fits
            } else {
                configured as usize
            },
            None => configured as usize,
        },
        None => configured as usize,
    }
}

/// Largest IP packet that fits in a QUIC DATAGRAM of `max_datagram_size`
/// bytes on `qsid` — the usable tunnel MTU (RFC 9484 §7.2). `None` when the
/// datagram cannot even hold the framing.
pub fn max_ip_packet_size(max_datagram_size: usize, qsid: u64) -> (r: Option<usize>)
    ensures
        r == (if max_datagram_size >= overhead(qsid) {
            Some((max_datagram_size - overhead(qsid)) as usize)
        } else {
            None
        }),
{
    max_datagram_size.checked_sub(datagram_overhead(qsid))
}

/// Compute the Quarter Stream ID for a request stream ID (RFC 9297 §2.1).
/// HTTP Datagrams flow only on client-initiated bidirectional streams.
pub fn quarter_stream_id(stream_id: u64) -> (qsid: u64)
    requires
        stream_id % 4 == 0,
    ensures
        qsid * 4 == stream_id,
{
    stream_id / 4
}

/// Encode a full QUIC DATAGRAM payload: Quarter Stream ID + datagram.
pub fn encode_quic_datagram(qsid: u64, datagram: &IpProxyingDatagram) -> (wire: Bytes)
    requires
        qsid <= VARINT_MAX,
        datagram.context_id <= VARINT_MAX,
        frozen(datagram.payload).len() + 16 <= isize::MAX,
    ensures
        frozen(wire) == quic_datagram_bytes(qsid, datagram.context_id, frozen(datagram.payload)),
{
    let mut buf = new_buffer();
    proof {
        lemma_varint_bytes(qsid);
    }
    let _ = write_varint(&mut buf, qsid);
    datagram.encode(&mut buf);
    proof {
        assert(buffered(buf) =~= quic_datagram_bytes(
            qsid,
            datagram.context_id,
            frozen(datagram.payload),
        ));
    }
    freeze(buf)
}

/// Decode a full QUIC DATAGRAM payload into (Quarter Stream ID, datagram).
pub fn decode_quic_datagram(wire: &Bytes) -> (r: Result<(u64, IpProxyingDatagram), DecodeError>)
    ensures
        match quic_datagram_at(frozen(*wire)) {
            Some((qsid, context_id, payload)) => {
                &&& r is Ok
                &&& r->Ok_0.0 == qsid
                &&& qsid <= VARINT_MAX
                &&& r->Ok_0.1.context_id == context_id
                &&& frozen(r->Ok_0.1.payload) == payload
            },
            None => r == Err::<(u64, IpProxyingDatagram), DecodeError>(DecodeError::Underflow),
        },
{
    let mut rest: &[u8] = frozen_slice(wire);
    let qsid: u64 = match read_varint(&mut rest) {
        Ok(v) => v,
        Err(e) => {
            return Err(e);
        },
    };
    match IpProxyingDatagram::decode(&mut rest) {
        Ok(datagram) => Ok((qsid, datagram)),
        Err(e) => Err(e),
    }
}

/// A datagram on the wire: the quarter stream id, the context id, the payload.
/// Each id takes one byte while it is below 64.
pub proof fn lemma_datagram_layout(qsid: u64, context_id: u64, payload: Seq<u8>)
    ensures
        quic_datagram_bytes(qsid, context_id, payload) == varint_bytes(qsid) + varint_bytes(
            context_id,
        ) + payload,
        qsid < 64 && context_id < 64 ==> quic_datagram_bytes(qsid, context_id, payload) == seq![
            qsid as u8,
            context_id as u8,
        ] + payload,
{
    assert(quic_datagram_bytes(qsid, context_id, payload) =~= varint_bytes(qsid) + varint_bytes(
        context_id,
    ) + payload);
    if qsid < 64 && context_id < 64 {
        crate::capsule::codec::lemma_varint_layout(qsid);
        crate::capsule::codec::lemma_varint_layout(context_id);
        assert(quic_datagram_bytes(qsid, context_id, payload) =~= seq![
            qsid as u8,
            context_id as u8,
        ] + payload);
    }
}

/// A datagram that starts with two small ids is read so, and its payload is
/// all that follows; one that ends before its context id is not read.
pub proof fn lemma_datagram_read(s: Seq<u8>)
    ensures
        s.len() >= 2 && s[0] < 64 && s[1] < 64 ==> quic_datagram_at(s) == Some(
            (s[0] as u64, s[1] as u64, s.skip(2)),
        ),
        s.len() < 2 ==> quic_datagram_at(s) is None,
{
    crate::capsule::codec::lemma_varint_read(s);
    if s.len() > 0 {
        crate::capsule::codec::lemma_varint_read(s.skip(1));
        if s.len() >= 2 && s[0] < 64 && s[1] < 64 {
            assert(s.skip(1).skip(1) =~= s.skip(2));
            assert(s.skip(1)[0] == s[1]);
        }
    }
}

/// An HTTP datagram is its context id and then its payload, and is read back
/// as it was written.
pub proof fn lemma_http_datagram(context_id: u64, payload: Seq<u8>)
    requires
        context_id <= VARINT_MAX,
    ensures
        datagram_at(datagram_bytes(context_id, payload)) == Some((context_id, payload)),
        context_id < 64 ==> datagram_bytes(context_id, payload) == seq![context_id as u8] + payload,
{
    lemma_varint_roundtrip(context_id, payload);
    let n = varint_bytes(context_id).len() as int;
    assert((varint_bytes(context_id) + payload).skip(n) =~= payload);
    crate::capsule::codec::lemma_varint_layout(context_id);
}

} // verus!
