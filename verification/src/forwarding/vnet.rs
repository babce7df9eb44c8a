//! virtio-net header codec and userspace TSO for the TUN device.
//!
//! With `IFF_VNET_HDR` + `TUNSETOFFLOAD(TUN_F_CSUM|TSO4|TSO6)`, the kernel
//! stops segmenting TCP at the device MTU and hands us one aggregate frame
//! (up to 64 KB) prefixed by a 10-byte `struct virtio_net_hdr` — one read
//! syscall and one trip down the kernel stack per aggregate instead of per
//! MTU packet. The tunnel itself still carries MTU-sized IP packets, so
//! [`expand`] re-segments the aggregate here: per segment, rebuilt IP and
//! TCP headers (length, IPv4 ID, sequence number, flags) and freshly
//! computed checksums — offloaded packets arrive with `NEEDS_CSUM`, i.e.
//! their checksum is NOT filled in.
//!
//! Layout (little-endian fields, `/usr/include/linux/virtio_net.h`):
//!
//! ```text
//! u8 flags; u8 gso_type; u16 hdr_len; u16 gso_size; u16 csum_start; u16 csum_offset;
//! ```

use bytes::Bytes;
use vstd::prelude::*;
use vstd::slice::{slice_subrange, slice_to_vec};

use crate::bigendian::{be16, be32, be_bytes, read_u16, read_u32};
use crate::buf::{copy_frozen, frozen, frozen_slice};
use crate::forwarding::checksum::{
    checksum_verifies, fold, lemma_seeded_verifies, lemma_word_sum_bound, lemma_word_sum_concat,
    ones_fold, seeded_checksum, sum_words, word_sum,
};
use crate::forwarding::packet::{
    ihl_of, lemma_header_checksum_verifies, recompute_ipv4_checksum, with_header_checksum,
};

verus! {

/// `sizeof(struct virtio_net_hdr)`; pinned via `TUNSETVNETHDRSZ`.
pub const VNET_HDR_LEN: usize = 10;

pub const VIRTIO_NET_HDR_F_NEEDS_CSUM: u8 = 1;

pub const VIRTIO_NET_HDR_GSO_NONE: u8 = 0;

pub const VIRTIO_NET_HDR_GSO_TCPV4: u8 = 1;

pub const VIRTIO_NET_HDR_GSO_TCPV6: u8 = 4;

/// Set beside the GSO type when the aggregate carries ECN; masked off.
pub const VIRTIO_NET_HDR_GSO_ECN: u8 = 0x80;

/// Decoded `virtio_net_hdr`.
#[derive(Debug, Clone, Copy, PartialEq, Eq, Structural)]
pub struct VnetHdr {
    pub flags: u8,
    pub gso_type: u8,
    pub hdr_len: u16,
    pub gso_size: u16,
    pub csum_start: u16,
    pub csum_offset: u16,
}

/// The two bytes at `i`, read little-endian.
pub open spec fn le16(s: Seq<u8>, i: int) -> u16 {
    (s[i] + s[i + 1] * 256) as u16
}

impl VnetHdr {
    /// Decode the header at the front of `buf`. The top bit of `gso_type`
    /// (ECN) is irrelevant to re-segmentation and dropped.
    pub fn parse(buf: &[u8]) -> (r: Option<Self>)
        ensures
            r == (if buf@.len() < VNET_HDR_LEN {
                None
            } else {
                Some(
                    VnetHdr {
                        flags: buf@[0],
                        gso_type: (buf@[1] % VIRTIO_NET_HDR_GSO_ECN) as u8,
                        hdr_len: le16(buf@, 2),
                        gso_size: le16(buf@, 4),
                        csum_start: le16(buf@, 6),
                        csum_offset: le16(buf@, 8),
                    },
                )
            }),
    {
        if buf.len() < VNET_HDR_LEN {
            return None;
        }
        Some(
            VnetHdr {
                flags: buf[0],
                gso_type: buf[1] % VIRTIO_NET_HDR_GSO_ECN,
                hdr_len: buf[2] as u16 + buf[3] as u16 * 256,
                gso_size: buf[4] as u16 + buf[5] as u16 * 256,
                csum_start: buf[6] as u16 + buf[7] as u16 * 256,
                csum_offset: buf[8] as u16 + buf[9] as u16 * 256,
            },
        )
    }
}

/// The header prepended to every packet written to the device: no offload,
/// checksum already valid (we computed or verified it in the tunnel path).
pub fn encode_none() -> (hdr: [u8; 10])
    ensures
        hdr@.len() == VNET_HDR_LEN,
        forall|i: int| 0 <= i < VNET_HDR_LEN ==> #[trigger] hdr@[i] == 0,
{
    [0u8; 10]
}

/// The word sum of several parts, each padded on its own.
pub open spec fn parts_sum(parts: Seq<&[u8]>) -> nat
    decreases parts.len(),
{
    if parts.len() == 0 {
        0
    } else {
        parts_sum(parts.drop_last()) + word_sum(parts.last()@)
    }
}

proof fn lemma_parts_sum_take(parts: Seq<&[u8]>, i: int)
    requires
        0 <= i < parts.len(),
    ensures
        parts_sum(parts.take(i + 1)) == parts_sum(parts.take(i)) + word_sum(parts[i]@),
        parts_sum(parts.take(i + 1)) <= parts_sum(parts),
    decreases parts.len() - i,
{
    assert(parts.take(i + 1).drop_last() =~= parts.take(i));
    if i + 1 < parts.len() {
        lemma_parts_sum_take(parts, i + 1);
    } else {
        assert(parts.take(i + 1) =~= parts);
    }
}

/// RFC 1071 internet checksum over `parts`, with `seed` folded in (used for
/// the pseudo-header sum).
pub fn internet_checksum(seed: u32, parts: &[&[u8]]) -> (c: u16)
    requires
        seed + parts_sum(parts@) <= u32::MAX,
    ensures
        c == 0xffff - ones_fold(seed as nat + parts_sum(parts@)),
{
    let mut sum: u32 = seed;
    let mut i: usize = 0;
    assert(parts@.take(0) =~= Seq::<&[u8]>::empty());
    while i < parts.len()
        invariant
            i <= parts@.len(),
            seed + parts_sum(parts@) <= u32::MAX,
            sum == seed + parts_sum(parts@.take(i as int)),
        decreases parts@.len() - i,
    {
        proof {
            lemma_parts_sum_take(parts@, i as int);
        }
        sum = sum_words(parts[i], sum);
        i = i + 1;
    }
    assert(parts@.take(i as int) =~= parts@);
    0xffff - fold(sum)
}

/// Pseudo-header sum (addresses + protocol + length) of a packet: the IPv4
/// fields for version 4, the IPv6 fields for anything else.
pub open spec fn pseudo_total(s: Seq<u8>, l4_len: nat) -> nat {
    if s[0] / 16 == 4 {
        word_sum(s.subrange(12, 20)) + s[9] as nat + l4_len
    } else {
        word_sum(s.subrange(8, 40)) + s[6] as nat + l4_len
    }
}

/// How long an IP header must be for its pseudo-header fields to be there.
pub open spec fn pseudo_header_len(s: Seq<u8>) -> nat {
    if s[0] / 16 == 4 {
        20
    } else {
        40
    }
}

/// Pseudo-header sum (addresses + protocol + length) for the family of the
/// packet in `ip_hdr`.
pub fn pseudo_sum(ip_hdr: &[u8], l4_len: usize) -> (sum: u32)
    requires
        ip_hdr@.len() > 0,
        ip_hdr@.len() >= pseudo_header_len(ip_hdr@),
        pseudo_total(ip_hdr@, l4_len as nat) <= u32::MAX,
    ensures
        sum == pseudo_total(ip_hdr@, l4_len as nat),
{
    match ip_hdr[0] / 16 {
        4 => {
            let addrs = slice_subrange(ip_hdr, 12, 20);
            sum_words(addrs, 0) + ip_hdr[9] as u32 + l4_len as u32
        },
        _ => {
            let addrs = slice_subrange(ip_hdr, 8, 40);
            sum_words(addrs, 0) + ip_hdr[6] as u32 + l4_len as u32
        },
    }
}

/// Errors from [`expand`]; each maps to a dropped frame, counted upstream.
#[derive(Debug, Clone, Copy, PartialEq, Eq, Structural)]
pub enum VnetError {
    Truncated,
    UnsupportedGso(u8),
    Malformed,
}

/// `s` with the two bytes at `at` set to `v`.
pub open spec fn put16(s: Seq<u8>, at: int, v: nat) -> Seq<u8> {
    s.update(at, (v / 256 % 256) as u8).update(at + 1, (v % 256) as u8)
}

/// `s` with the four bytes at `at` set to `v`.
pub open spec fn put32(s: Seq<u8>, at: int, v: nat) -> Seq<u8> {
    s.update(at, (v / 0x100_0000 % 256) as u8).update(at + 1, (v / 0x1_0000 % 256) as u8).update(
        at + 2,
        (v / 0x100 % 256) as u8,
    ).update(at + 3, (v % 256) as u8)
}

/// The checksum of everything behind the IP header, pseudo-header included,
/// counting the checksum field as it stands.
pub open spec fn l4_checksum(s: Seq<u8>, ip_len: int) -> u16 {
    seeded_checksum(pseudo_total(s, (s.len() - ip_len) as nat), s.skip(ip_len))
}

/// `s` with the checksum field at `at` filled in for what stands behind the
/// IP header.
pub open spec fn with_l4_checksum(s: Seq<u8>, ip_len: int, at: int) -> Seq<u8> {
    let z = put16(s, at, 0);
    put16(z, at, l4_checksum(z, ip_len) as nat)
}

/// Filling in the checksum makes what stands behind the IP header verify.
pub proof fn lemma_l4_checksum_verifies(s: Seq<u8>, ip_len: int, at: int)
    requires
        pseudo_header_len(s) <= ip_len <= at,
        at + 2 <= s.len(),
        (at - ip_len) % 2 == 0,
    ensures
        l4_checksum(with_l4_checksum(s, ip_len, at), ip_len) == 0,
        with_l4_checksum(s, ip_len, at).len() == s.len(),
        with_l4_checksum(s, ip_len, at).take(at) == s.take(at),
        with_l4_checksum(s, ip_len, at).skip(at + 2) == s.skip(at + 2),
{
    let z = put16(s, at, 0);
    let c = l4_checksum(z, ip_len);
    let r = with_l4_checksum(s, ip_len, at);
    let a = s.subrange(ip_len, at);
    let b = s.skip(at + 2);
    let seed = pseudo_total(s, (s.len() - ip_len) as nat);
    assert(z.skip(ip_len) =~= a + seq![0u8, 0u8] + b);
    reveal_with_fuel(be_bytes, 3);
    assert(r.skip(ip_len) =~= a + be_bytes(c as nat, 2) + b);
    if s[0] / 16 == 4 {
        assert(z.subrange(12, 20) =~= s.subrange(12, 20));
        assert(r.subrange(12, 20) =~= s.subrange(12, 20));
    } else {
        assert(z.subrange(8, 40) =~= s.subrange(8, 40));
        assert(r.subrange(8, 40) =~= s.subrange(8, 40));
    }
    lemma_seeded_verifies(seed, a, b);
    assert(r.take(at) =~= s.take(at));
    assert(r.skip(at + 2) =~= s.skip(at + 2));
}

/// Where the headers of a TCP frame end: the length of the IP header and of
/// the TCP header. The split comes from the packet itself.
pub open spec fn tcp_layout(s: Seq<u8>) -> Result<(nat, nat), VnetError> {
    if s.len() == 0 || !(s[0] / 16 == 4 && s.len() >= 20 || s[0] / 16 == 6 && s.len() >= 40) {
        Err(VnetError::Malformed)
    } else {
        let ip_len: nat = if s[0] / 16 == 4 {
            ihl_of(s)
        } else {
            40
        };
        if s.len() < ip_len + 20 {
            Err(VnetError::Truncated)
        } else {
            let tcp_len = (s[ip_len as int + 12] / 16) as nat * 4;
            if tcp_len < 20 || s.len() <= ip_len + tcp_len {
                Err(VnetError::Malformed)
            } else {
                Ok((ip_len, tcp_len))
            }
        }
    }
}

/// How much payload the segment that starts at payload offset `start` carries.
pub open spec fn chunk_len(payload_len: nat, mss: nat, start: nat) -> nat {
    if payload_len - start <= mss {
        (payload_len - start) as nat
    } else {
        mss
    }
}

/// TCP flags of a segment: FIN and PSH only on the last, CWR only on the
/// first.
pub open spec fn segment_flags(flags: u8, is_first: bool, is_last: bool) -> u8 {
    let a = if is_last {
        flags
    } else {
        flags & 0xf6
    };
    if is_first {
        a
    } else {
        a & 0x7f
    }
}

/// The headers of the frame in front of the payload of one segment.
pub open spec fn raw_segment(s: Seq<u8>, headers_len: nat, mss: nat, start: nat) -> Seq<u8> {
    let n = chunk_len((s.len() - headers_len) as nat, mss, start);
    s.take(headers_len as int) + s.subrange(
        (headers_len + start) as int,
        (headers_len + start + n) as int,
    )
}

/// `seg` with the IP header fields of segment `index`: for IPv4 the total
/// length, the ID counted up per segment and the header checksum, for IPv6
/// the payload length.
pub open spec fn with_ip_fields(seg: Seq<u8>, index: nat) -> Seq<u8> {
    if seg[0] / 16 == 4 {
        with_header_checksum(
            put16(
                put16(seg, 2, seg.len() % 0x1_0000),
                4,
                (be16(seg, 4) + index) as nat % 0x1_0000,
            ),
        )
    } else {
        put16(seg, 4, (seg.len() - 40) as nat % 0x1_0000)
    }
}

/// `seg` with the TCP fields of the segment at payload offset `start`: the
/// sequence number advanced, the flags trimmed, the checksum filled in.
pub open spec fn with_tcp_fields(seg: Seq<u8>, ip_len: int, start: nat, is_last: bool) -> Seq<u8> {
    let numbered = put32(seg, ip_len + 4, (be32(seg, ip_len + 4) + start) as nat % 0x1_0000_0000);
    let flagged = numbered.update(
        ip_len + 13,
        segment_flags(seg[ip_len + 13], start == 0, is_last),
    );
    with_l4_checksum(flagged, ip_len, ip_len + 16)
}

/// The `index`-th segment, whose payload starts at `start`.
pub open spec fn segment(
    s: Seq<u8>,
    ip_len: nat,
    tcp_len: nat,
    mss: nat,
    start: nat,
    index: nat,
) -> Seq<u8> {
    let headers_len = ip_len + tcp_len;
    with_tcp_fields(
        with_ip_fields(raw_segment(s, headers_len, mss, start), index),
        ip_len as int,
        start,
        s.len() - headers_len - start <= mss,
    )
}

/// The segments from payload offset `start` on.
pub open spec fn segments_from(
    s: Seq<u8>,
    ip_len: nat,
    tcp_len: nat,
    mss: nat,
    start: nat,
    index: nat,
) -> Seq<Seq<u8>>
    decreases
        (if s.len() > ip_len + tcp_len + start {
            s.len() - ip_len - tcp_len - start
        } else {
            0
        }),
{
    if mss == 0 || s.len() <= ip_len + tcp_len + start {
        Seq::empty()
    } else {
        seq![segment(s, ip_len, tcp_len, mss, start, index)] + segments_from(
            s,
            ip_len,
            tcp_len,
            mss,
            start + mss,
            index + 1,
        )
    }
}

/// The segments of a TCP frame at the given segment size.
pub open spec fn tcp_segments(s: Seq<u8>, mss: nat) -> Result<Seq<Seq<u8>>, VnetError> {
    if mss == 0 {
        Err(VnetError::Malformed)
    } else {
        match tcp_layout(s) {
            Err(e) => Err(e),
            Ok((ip_len, tcp_len)) => Ok(segments_from(s, ip_len, tcp_len, mss, 0, 0)),
        }
    }
}

/// The packets that one frame turns into.
pub open spec fn expansion(hdr: VnetHdr, s: Seq<u8>) -> Result<Seq<Seq<u8>>, VnetError> {
    if hdr.gso_type == VIRTIO_NET_HDR_GSO_NONE {
        if hdr.flags % 2 == 0 {
            Ok(seq![s])
        } else if hdr.csum_start + hdr.csum_offset + 2 > s.len() {
            Err(VnetError::Truncated)
        } else {
            Ok(
                seq![
                    with_l4_checksum(
                        s,
                        hdr.csum_start as int,
                        hdr.csum_start + hdr.csum_offset,
                    ),
                ],
            )
        }
    } else if hdr.gso_type == VIRTIO_NET_HDR_GSO_TCPV4 || hdr.gso_type
        == VIRTIO_NET_HDR_GSO_TCPV6 {
        tcp_segments(s, hdr.gso_size as nat)
    } else {
        Err(VnetError::UnsupportedGso(hdr.gso_type))
    }
}

/// A frame that [`expand`] can take: where a checksum has to be completed,
/// the IP header in front of it is whole and the sum fits 32 bits; where a
/// frame is cut up, its IP header is at least as long as IP allows.
pub open spec fn expandable(hdr: VnetHdr, s: Seq<u8>) -> bool {
    &&& hdr.gso_type == VIRTIO_NET_HDR_GSO_NONE && hdr.flags % 2 != 0 && hdr.csum_start
        + hdr.csum_offset + 2 <= s.len() ==> {
        let z = put16(s, hdr.csum_start + hdr.csum_offset, 0);
        &&& hdr.csum_start >= pseudo_header_len(s)
        &&& s.len() - hdr.csum_start <= u32::MAX
        &&& pseudo_total(s, (s.len() - hdr.csum_start) as nat) + word_sum(
            z.skip(hdr.csum_start as int),
        ) <= u32::MAX
    }
    &&& (hdr.gso_type == VIRTIO_NET_HDR_GSO_TCPV4 || hdr.gso_type == VIRTIO_NET_HDR_GSO_TCPV6)
        && hdr.gso_size > 0 ==> (tcp_layout(s) matches Ok((ip_len, _)) ==> ip_len >= 20)
}

/// Reading back the two bytes that were put.
proof fn lemma_put16(s: Seq<u8>, at: int, v: nat)
    requires
        0 <= at,
        at + 2 <= s.len(),
        v < 0x1_0000,
    ensures
        be16(put16(s, at, v), at) == v,
        put16(s, at, v).len() == s.len(),
        forall|i: int| 0 <= i < s.len() && i != at && i != at + 1 ==> #[trigger] put16(s, at, v)[i]
            == s[i],
{
}

/// Reading back the four bytes that were put.
proof fn lemma_put32(s: Seq<u8>, at: int, v: nat)
    requires
        0 <= at,
        at + 4 <= s.len(),
        v < 0x1_0000_0000,
    ensures
        be32(put32(s, at, v), at) == v,
        put32(s, at, v).len() == s.len(),
        forall|i: int| 0 <= i < s.len() && !(at <= i < at + 4) ==> #[trigger] put32(s, at, v)[i]
            == s[i],
{
}

/// What the IP fields of a segment leave alone.
proof fn lemma_ip_fields(seg: Seq<u8>, ip_len: int, index: nat)
    requires
        seg.len() >= 40,
        20 <= ip_len <= seg.len(),
        seg[0] / 16 == 4 ==> ip_len == ihl_of(seg),
        seg[0] / 16 != 4 ==> ip_len >= 40,
    ensures
        with_ip_fields(seg, index).len() == seg.len(),
        with_ip_fields(seg, index)[0] == seg[0],
        with_ip_fields(seg, index).skip(ip_len) == seg.skip(ip_len),
        seg[0] / 16 == 4 ==> checksum_verifies(with_ip_fields(seg, index).take(ip_len)) && be16(
            with_ip_fields(seg, index),
            2,
        ) == seg.len() % 0x1_0000,
        seg[0] / 16 != 4 ==> be16(with_ip_fields(seg, index), 4) == (seg.len() - 40) % 0x1_0000,
{
    let t = with_ip_fields(seg, index);
    if seg[0] / 16 == 4 {
        let a = put16(seg, 2, seg.len() % 0x1_0000);
        lemma_put16(seg, 2, seg.len() % 0x1_0000);
        let id = (be16(seg, 4) + index) as nat % 0x1_0000;
        let b = put16(a, 4, id);
        lemma_put16(a, 4, id);
        assert(b[0] == seg[0]);
        lemma_header_checksum_verifies(b);
        assert(be16(b, 2) == be16(a, 2));
        assert(t[2] == b[2] && t[3] == b[3]);
    } else {
        lemma_put16(seg, 4, (seg.len() - 40) as nat % 0x1_0000);
    }
    assert(t.skip(ip_len) =~= seg.skip(ip_len));
}

/// What a segment is: as long as its headers and its share of the payload;
/// that share unchanged behind the headers; both checksums verify; the
/// sequence number advanced by the payload offset; FIN and PSH only on the
/// last segment and CWR only on the first.
pub proof fn lemma_segment_valid(
    s: Seq<u8>,
    ip_len: nat,
    tcp_len: nat,
    mss: nat,
    start: nat,
    index: nat,
)
    requires
        tcp_layout(s) == Ok::<(nat, nat), VnetError>((ip_len, tcp_len)),
        ip_len >= 20,
        mss > 0,
        ip_len + tcp_len + start < s.len(),
    ensures
        ({
            let seg = segment(s, ip_len, tcp_len, mss, start, index);
            let h = (ip_len + tcp_len) as int;
            let n = chunk_len((s.len() - h) as nat, mss, start) as int;
            &&& seg.len() == h + n
            &&& seg.skip(h) == s.subrange(h + start, h + start + n)
            &&& l4_checksum(seg, ip_len as int) == 0
            &&& s[0] / 16 == 4 ==> checksum_verifies(seg.take(ip_len as int))
            &&& be32(seg, ip_len as int + 4) == (be32(s, ip_len as int + 4) + start)
                % 0x1_0000_0000
            &&& seg[ip_len as int + 13] == segment_flags(
                s[ip_len as int + 13],
                start == 0,
                s.len() - h - start <= mss,
            )
        }),
{
    let h = (ip_len + tcp_len) as int;
    let at = ip_len as int;
    let n = chunk_len((s.len() - h) as nat, mss, start) as int;
    let raw = raw_segment(s, h as nat, mss, start);
    assert(raw.skip(h) =~= s.subrange(h + start, h + start + n));
    lemma_ip_fields(raw, at, index);
    let ip = with_ip_fields(raw, index);
    assert forall|i: int| at <= i < raw.len() implies ip[i] == raw[i] by {
        assert(ip.skip(at)[i - at] == raw.skip(at)[i - at]);
    }
    let v = (be32(ip, at + 4) + start) as nat % 0x1_0000_0000;
    let numbered = put32(ip, at + 4, v);
    lemma_put32(ip, at + 4, v);
    let is_last = s.len() - h - start <= mss;
    let flagged = numbered.update(at + 13, segment_flags(ip[at + 13], start == 0, is_last));
    lemma_l4_checksum_verifies(flagged, at, at + 16);
    let seg = segment(s, ip_len, tcp_len, mss, start, index);
    assert(seg == with_l4_checksum(flagged, at, at + 16));
    assert forall|i: int| 0 <= i < at + 16 implies seg[i] == flagged[i] by {
        assert(seg.take(at + 16)[i] == flagged.take(at + 16)[i]);
    }
    assert forall|i: int| at + 18 <= i < seg.len() implies seg[i] == flagged[i] by {
        assert(seg.skip(at + 18)[i - at - 18] == flagged.skip(at + 18)[i - at - 18]);
    }
    assert(seg.skip(h) =~= raw.skip(h));
    assert(seg.take(at) =~= ip.take(at));
    assert(be32(ip, at + 4) == be32(s, at + 4));
    assert(be32(seg, at + 4) == be32(numbered, at + 4));
}

/// The payloads of a list of segments, in order.
pub open spec fn reassembled(segs: Seq<Seq<u8>>, headers_len: int) -> Seq<u8>
    decreases segs.len(),
{
    if segs.len() == 0 {
        Seq::empty()
    } else {
        segs[0].skip(headers_len) + reassembled(segs.skip(1), headers_len)
    }
}

/// The segments of a frame carry its payload, no byte lost, repeated or out
/// of place.
pub proof fn lemma_segments_reassemble(
    s: Seq<u8>,
    ip_len: nat,
    tcp_len: nat,
    mss: nat,
    start: nat,
    index: nat,
)
    requires
        tcp_layout(s) == Ok::<(nat, nat), VnetError>((ip_len, tcp_len)),
        ip_len >= 20,
        mss > 0,
        ip_len + tcp_len + start <= s.len(),
    ensures
        reassembled(
            segments_from(s, ip_len, tcp_len, mss, start, index),
            (ip_len + tcp_len) as int,
        ) == s.skip((ip_len + tcp_len + start) as int),
    decreases s.len() - ip_len - tcp_len - start,
{
    let h = (ip_len + tcp_len) as int;
    let segs = segments_from(s, ip_len, tcp_len, mss, start, index);
    if s.len() <= ip_len + tcp_len + start {
        assert(s.skip(h + start) =~= Seq::<u8>::empty());
    } else {
        let seg = segment(s, ip_len, tcp_len, mss, start, index);
        let rest = segments_from(s, ip_len, tcp_len, mss, start + mss, index + 1);
        lemma_segment_valid(s, ip_len, tcp_len, mss, start, index);
        assert(segs[0] == seg);
        assert(segs.skip(1) =~= rest);
        assert(segs.len() > 0);
        assert(reassembled(segs, h) == seg.skip(h) + reassembled(rest, h));
        if h + start + mss <= s.len() {
            lemma_segments_reassemble(s, ip_len, tcp_len, mss, start + mss, index + 1);
            assert(s.skip(h + start) =~= s.subrange(h + start, h + start + mss) + s.skip(
                h + start + mss,
            ));
        } else {
            assert(rest =~= Seq::<Seq<u8>>::empty());
            assert(reassembled(rest, h) =~= Seq::<u8>::empty());
            assert(s.skip(h + start) =~= s.subrange(h + start, s.len() as int) + Seq::<
                u8,
            >::empty());
        }
    }
}

/// A header byte that differs from segment to segment: the IP length, the
/// IPv4 ID and header checksum, and the TCP sequence number, flags and
/// checksum.
pub open spec fn rewritten(v4: bool, ip_len: int, i: int) -> bool {
    ||| v4 && (2 <= i < 6 || 10 <= i < 12)
    ||| !v4 && 4 <= i < 6
    ||| ip_len + 4 <= i < ip_len + 8
    ||| i == ip_len + 13
    ||| ip_len + 16 <= i < ip_len + 18
}

/// What the IP fields of a segment are, byte by byte.
proof fn lemma_ip_bytes(seg: Seq<u8>, ip_len: int, index: nat)
    requires
        seg.len() >= 40,
        20 <= ip_len <= seg.len(),
        seg[0] / 16 == 4 ==> ip_len == ihl_of(seg),
        seg[0] / 16 != 4 ==> ip_len >= 40,
    ensures
        ({
            let t = with_ip_fields(seg, index);
            &&& t.len() == seg.len()
            &&& seg[0] / 16 == 4 ==> {
                &&& be16(t, 2) == seg.len() % 0x1_0000
                &&& be16(t, 4) == (be16(seg, 4) + index) % 0x1_0000
                &&& checksum_verifies(t.take(ip_len))
                &&& forall|i: int|
                    0 <= i < seg.len() && !(2 <= i < 6 || 10 <= i < 12) ==> #[trigger] t[i]
                        == seg[i]
            }
            &&& seg[0] / 16 != 4 ==> {
                &&& be16(t, 4) == (seg.len() - 40) % 0x1_0000
                &&& forall|i: int| 0 <= i < seg.len() && !(4 <= i < 6) ==> #[trigger] t[i] == seg[i]
            }
        }),
{
    lemma_ip_fields(seg, ip_len, index);
    let t = with_ip_fields(seg, index);
    if seg[0] / 16 == 4 {
        let a = put16(seg, 2, seg.len() % 0x1_0000);
        lemma_put16(seg, 2, seg.len() % 0x1_0000);
        let id = (be16(seg, 4) + index) as nat % 0x1_0000;
        let b = put16(a, 4, id);
        lemma_put16(a, 4, id);
        assert(t[4] == b[4] && t[5] == b[5]);
    } else {
        lemma_put16(seg, 4, (seg.len() - 40) as nat % 0x1_0000);
    }
}

/// The headers of a segment are those of the frame in every byte that is not
/// rewritten; the length is the segment's, the ID and the sequence number
/// count on.
pub proof fn lemma_segment_headers(
    s: Seq<u8>,
    ip_len: nat,
    tcp_len: nat,
    mss: nat,
    start: nat,
    index: nat,
)
    requires
        tcp_layout(s) == Ok::<(nat, nat), VnetError>((ip_len, tcp_len)),
        ip_len >= 20,
        mss > 0,
        ip_len + tcp_len + start < s.len(),
    ensures
        ({
            let seg = segment(s, ip_len, tcp_len, mss, start, index);
            let at = ip_len as int;
            &&& seg.len() >= at + tcp_len
            &&& forall|i: int|
                0 <= i < at + tcp_len && !rewritten(s[0] / 16 == 4, at, i) ==> #[trigger] seg[i]
                    == s[i]
            &&& s[0] / 16 == 4 ==> be16(seg, 2) == seg.len() % 0x1_0000 && be16(seg, 4) == (be16(
                s,
                4,
            ) + index) % 0x1_0000
            &&& s[0] / 16 != 4 ==> be16(seg, 4) == (seg.len() - 40) % 0x1_0000
        }),
{
    let h = (ip_len + tcp_len) as int;
    let at = ip_len as int;
    let raw = raw_segment(s, h as nat, mss, start);
    lemma_ip_bytes(raw, at, index);
    let ip = with_ip_fields(raw, index);
    let v = (be32(ip, at + 4) + start) as nat % 0x1_0000_0000;
    let numbered = put32(ip, at + 4, v);
    lemma_put32(ip, at + 4, v);
    let is_last = s.len() - h - start <= mss;
    let flagged = numbered.update(at + 13, segment_flags(ip[at + 13], start == 0, is_last));
    lemma_l4_checksum_verifies(flagged, at, at + 16);
    let seg = segment(s, ip_len, tcp_len, mss, start, index);
    assert(seg == with_l4_checksum(flagged, at, at + 16));
    assert forall|i: int| 0 <= i < at + 16 implies seg[i] == flagged[i] by {
        assert(seg.take(at + 16)[i] == flagged.take(at + 16)[i]);
    }
    assert forall|i: int| at + 18 <= i < seg.len() implies seg[i] == flagged[i] by {
        assert(seg.skip(at + 18)[i - at - 18] == flagged.skip(at + 18)[i - at - 18]);
    }
    assert forall|i: int| 0 <= i < h && !rewritten(s[0] / 16 == 4, at, i) implies #[trigger] seg[i]
        == s[i] by {
        assert(flagged[i] == ip[i]);
        assert(ip[i] == raw[i]);
        assert(raw[i] == s[i]);
    }
    assert(seg[2] == ip[2] && seg[3] == ip[3] && seg[4] == ip[4] && seg[5] == ip[5]);
}

/// FIN and PSH stand on the last segment only, CWR on the first only, and
/// every other flag on every segment.
pub proof fn lemma_segment_flags(flags: u8, is_first: bool, is_last: bool)
    ensures
        segment_flags(flags, is_first, is_last) & 0x76 == flags & 0x76,
        segment_flags(flags, is_first, is_last) & 0x09 == if is_last {
            flags & 0x09
        } else {
            0u8
        },
        segment_flags(flags, is_first, is_last) & 0x80 == if is_first {
            flags & 0x80
        } else {
            0u8
        },
{
    assert(flags & 0x76 == flags & 0x76 && ((flags & 0xf6) & 0x76) == flags & 0x76 && ((flags
        & 0x7f) & 0x76) == flags & 0x76 && (((flags & 0xf6) & 0x7f) & 0x76) == flags & 0x76)
        by (bit_vector);
    assert((flags & 0xf6) & 0x09 == 0 && (flags & 0x7f) & 0x09 == flags & 0x09 && ((flags & 0xf6)
        & 0x7f) & 0x09 == 0) by (bit_vector);
    assert((flags & 0xf6) & 0x80 == flags & 0x80 && (flags & 0x7f) & 0x80 == 0 && ((flags & 0xf6)
        & 0x7f) & 0x80 == 0) by (bit_vector);
}

/// The segments from an offset on, one by one.
proof fn lemma_segments_indexed(
    s: Seq<u8>,
    ip_len: nat,
    tcp_len: nat,
    mss: nat,
    start: nat,
    index: nat,
)
    requires
        mss > 0,
    ensures
        ({
            let segs = segments_from(s, ip_len, tcp_len, mss, start, index);
            let left: int = s.len() - ip_len - tcp_len - start;
            &&& left <= 0 ==> segs.len() == 0
            &&& left > 0 ==> (segs.len() - 1) * mss < left <= segs.len() * mss
            &&& forall|k: int|
                0 <= k < segs.len() ==> #[trigger] segs[k] == segment(
                    s,
                    ip_len,
                    tcp_len,
                    mss,
                    (start + k * mss) as nat,
                    (index + k) as nat,
                )
        }),
    decreases
            (if s.len() > ip_len + tcp_len + start {
                s.len() - ip_len - tcp_len - start
            } else {
                0
            }),
{
    if s.len() > ip_len + tcp_len + start {
        let segs = segments_from(s, ip_len, tcp_len, mss, start, index);
        let rest = segments_from(s, ip_len, tcp_len, mss, start + mss, index + 1);
        let n = rest.len() as int;
        let m = mss as int;
        lemma_segments_indexed(s, ip_len, tcp_len, mss, start + mss, index + 1);
        assert(segs.len() == n + 1);
        assert((n + 1) * m == n * m + m) by (nonlinear_arith);
        assert((n - 1) * m == n * m - m) by (nonlinear_arith);
        assert(0 * m == 0);
        assert forall|k: int| 0 <= k < segs.len() implies #[trigger] segs[k] == segment(
            s,
            ip_len,
            tcp_len,
            mss,
            (start + k * mss) as nat,
            (index + k) as nat,
        ) by {
            if k > 0 {
                assert(segs[k] == rest[k - 1]);
                assert(mss + (k - 1) * mss == k * mss) by (nonlinear_arith);
                assert((k - 1) * mss >= 0) by (nonlinear_arith)
                    requires
                        k > 0,
                ;
            }
        }
    }
}

/// What a TCP aggregate turns into, told from its bytes. It is cut up exactly
/// if it is an IPv4 or IPv6 packet with whole headers and a payload, and the
/// segment size is not zero. The segments are as many as the payload needs;
/// the `k`-th carries the `k`-th stretch of it behind headers that equal the
/// aggregate's in every byte that is not rewritten, and both its checksums
/// verify.
pub proof fn lemma_aggregate_cut(hdr: VnetHdr, s: Seq<u8>)
    requires
        hdr.gso_type == 1 || hdr.gso_type == 4,
        expandable(hdr, s),
    ensures
        ({
            let v4 = s[0] / 16 == 4;
            let ip_len: int = if v4 {
                (s[0] % 16) as int * 4
            } else {
                40
            };
            let tcp_len: int = (s[ip_len + 12] / 16) as int * 4;
            let h = ip_len + tcp_len;
            let mss = hdr.gso_size as int;
            let whole = s.len() > 0 && (v4 && s.len() >= 20 || s[0] / 16 == 6 && s.len() >= 40)
                && s.len() >= ip_len + 20 && tcp_len >= 20 && s.len() > h;
            &&& expansion(hdr, s) is Ok <==> mss > 0 && whole
            &&& expansion(hdr, s) matches Ok(segs) ==> {
                &&& segs.len() > 0
                &&& (segs.len() - 1) * mss < s.len() - h <= segs.len() * mss
                &&& forall|k: int|
                    0 <= k < segs.len() ==> {
                        let seg = #[trigger] segs[k];
                        let start = k * mss;
                        let last = k == segs.len() - 1;
                        let n = if last {
                            s.len() - h - start
                        } else {
                            mss
                        };
                        &&& seg.len() == h + n
                        &&& seg.skip(h) == s.subrange(h + start, h + start + n)
                        &&& forall|i: int|
                            0 <= i < h && !rewritten(v4, ip_len, i) ==> #[trigger] seg[i] == s[i]
                        &&& v4 ==> be16(seg, 2) == seg.len() % 0x1_0000 && be16(seg, 4) == (be16(
                            s,
                            4,
                        ) + k) % 0x1_0000 && checksum_verifies(seg.take(ip_len))
                        &&& !v4 ==> be16(seg, 4) == (seg.len() - 40) % 0x1_0000
                        &&& be32(seg, ip_len + 4) == (be32(s, ip_len + 4) + start) % 0x1_0000_0000
                        &&& seg[ip_len + 13] & 0x76 == s[ip_len + 13] & 0x76
                        &&& seg[ip_len + 13] & 0x09 == if last {
                            s[ip_len + 13] & 0x09
                        } else {
                            0u8
                        }
                        &&& seg[ip_len + 13] & 0x80 == if k == 0 {
                            s[ip_len + 13] & 0x80
                        } else {
                            0u8
                        }
                        &&& l4_checksum(seg, ip_len) == 0
                    }
            }
        }),
{
    let mss = hdr.gso_size as int;
    if mss > 0 {
        if let Ok((ip_len, tcp_len)) = tcp_layout(s) {
            let segs = segments_from(s, ip_len, tcp_len, mss as nat, 0, 0);
            let h = (ip_len + tcp_len) as int;
            lemma_segments_indexed(s, ip_len, tcp_len, mss as nat, 0, 0);
            assert forall|k: int| 0 <= k < segs.len() implies aggregate_segment(
                s,
                ip_len as int,
                h,
                mss,
                k,
                k == segs.len() - 1,
                #[trigger] segs[k],
            ) by {
                lemma_nth_segment(s, ip_len, tcp_len, mss as nat, k, segs.len() as int);
            }
        }
    }
}

/// What the `k`-th segment is.
spec fn aggregate_segment(
    s: Seq<u8>,
    ip_len: int,
    h: int,
    mss: int,
    k: int,
    last: bool,
    seg: Seq<u8>,
) -> bool {
    let v4 = s[0] / 16 == 4;
    let start = k * mss;
    let n = if last {
        s.len() - h - start
    } else {
        mss
    };
    &&& seg.len() == h + n
    &&& seg.skip(h) == s.subrange(h + start, h + start + n)
    &&& forall|i: int| 0 <= i < h && !rewritten(v4, ip_len, i) ==> #[trigger] seg[i] == s[i]
    &&& v4 ==> be16(seg, 2) == seg.len() % 0x1_0000 && be16(seg, 4) == (be16(s, 4) + k) % 0x1_0000
        && checksum_verifies(seg.take(ip_len))
    &&& !v4 ==> be16(seg, 4) == (seg.len() - 40) % 0x1_0000
    &&& be32(seg, ip_len + 4) == (be32(s, ip_len + 4) + start) % 0x1_0000_0000
    &&& seg[ip_len + 13] & 0x76 == s[ip_len + 13] & 0x76
    &&& seg[ip_len + 13] & 0x09 == if last {
        s[ip_len + 13] & 0x09
    } else {
        0u8
    }
    &&& seg[ip_len + 13] & 0x80 == if k == 0 {
        s[ip_len + 13] & 0x80
    } else {
        0u8
    }
    &&& l4_checksum(seg, ip_len) == 0
}

proof fn lemma_nth_segment(
    s: Seq<u8>,
    ip_len: nat,
    tcp_len: nat,
    mss: nat,
    k: int,
    count: int,
)
    requires
        tcp_layout(s) == Ok::<(nat, nat), VnetError>((ip_len, tcp_len)),
        ip_len >= 20,
        mss > 0,
        0 <= k < count,
        (count - 1) * mss < s.len() - ip_len - tcp_len <= count * mss,
    ensures
        aggregate_segment(
            s,
            ip_len as int,
            (ip_len + tcp_len) as int,
            mss as int,
            k,
            k == count - 1,
            segment(s, ip_len, tcp_len, mss, (k * mss) as nat, k as nat),
        ),
{
    let p = s.len() - ip_len - tcp_len;
    assert(0 <= k * mss <= (count - 1) * mss) by (nonlinear_arith)
        requires
            0 <= k < count,
            mss > 0,
    ;
    let start = (k * mss) as nat;
    assert((k == 0) == (start == 0)) by (nonlinear_arith)
        requires
            start == k * mss,
            mss > 0,
            k >= 0,
    ;
    assert((k == count - 1) == (p - start <= mss)) by (nonlinear_arith)
        requires
            start == k * mss,
            0 <= k < count,
            mss > 0,
            (count - 1) * mss < p <= count * mss,
    ;
    lemma_segment_valid(s, ip_len, tcp_len, mss, start, k as nat);
    lemma_segment_headers(s, ip_len, tcp_len, mss, start, k as nat);
    lemma_segment_flags(s[ip_len as int + 13], start == 0, p - start <= mss);
}

/// A frame that is no aggregate passes as it is; where its checksum was left
/// open, only the two bytes of the checksum change, and it verifies.
pub proof fn lemma_frame_passes(hdr: VnetHdr, s: Seq<u8>)
    requires
        hdr.gso_type == 0,
        expandable(hdr, s),
    ensures
        ({
            let at = hdr.csum_start + hdr.csum_offset;
            if hdr.flags % 2 == 0 {
                expansion(hdr, s) == Ok::<Seq<Seq<u8>>, VnetError>(seq![s])
            } else if at + 2 > s.len() {
                expansion(hdr, s) == Err::<Seq<Seq<u8>>, VnetError>(VnetError::Truncated)
            } else {
                &&& expansion(hdr, s) matches Ok(out) && out.len() == 1 && out[0].len() == s.len()
                    && (forall|i: int|
                    0 <= i < s.len() && i != at && i != at + 1 ==> #[trigger] out[0][i] == s[i])
                &&& hdr.csum_offset % 2 == 0 ==> l4_checksum(
                    expansion(hdr, s)->Ok_0[0],
                    hdr.csum_start as int,
                ) == 0
            }
        }),
{
    if hdr.flags % 2 != 0 && hdr.csum_start + hdr.csum_offset + 2 <= s.len() && hdr.csum_offset % 2
        == 0 {
        lemma_l4_checksum_verifies(s, hdr.csum_start as int, hdr.csum_start + hdr.csum_offset);
    }
}

/// What is summed for a checksum besides the data is the pseudo-header of the
/// family: source and destination address, the protocol and the length.
pub proof fn lemma_pseudo_header(s: Seq<u8>, l4_len: nat)
    requires
        s.len() >= pseudo_header_len(s),
        l4_len < 0x1_0000,
    ensures
        s[0] / 16 == 4 ==> pseudo_total(s, l4_len) == word_sum(
            s.subrange(12, 20) + seq![0u8, s[9], (l4_len / 256) as u8, (l4_len % 256) as u8],
        ),
        s[0] / 16 != 4 ==> pseudo_total(s, l4_len) == word_sum(
            s.subrange(8, 40) + seq![
                0u8,
                0u8,
                (l4_len / 256) as u8,
                (l4_len % 256) as u8,
                0u8,
                0u8,
                0u8,
                s[6],
            ],
        ),
{
    let hi = (l4_len / 256) as u8;
    let lo = (l4_len % 256) as u8;
    if s[0] / 16 == 4 {
        let t = seq![0u8, s[9], hi, lo];
        lemma_word_sum_concat(s.subrange(12, 20), t);
        reveal_with_fuel(word_sum, 4);
        assert(t.skip(2) =~= seq![hi, lo]);
        assert(t.skip(2).skip(2) =~= Seq::<u8>::empty());
    } else {
        let t = seq![0u8, 0u8, hi, lo, 0u8, 0u8, 0u8, s[6]];
        lemma_word_sum_concat(s.subrange(8, 40), t);
        reveal_with_fuel(word_sum, 6);
        assert(t.skip(2) =~= seq![hi, lo, 0u8, 0u8, 0u8, s[6]]);
        assert(t.skip(2).skip(2) =~= seq![0u8, 0u8, 0u8, s[6]]);
        assert(t.skip(2).skip(2).skip(2) =~= seq![0u8, s[6]]);
        assert(t.skip(2).skip(2).skip(2).skip(2) =~= Seq::<u8>::empty());
    }
}

/// The contents of a list of packets.
pub open spec fn packets_of(out: Seq<Bytes>) -> Seq<Seq<u8>> {
    Seq::new(out.len(), |i: int| frozen(out[i]))
}

fn set16(v: &mut Vec<u8>, at: usize, val: u16)
    requires
        at + 2 <= old(v).len(),
    ensures
        final(v)@ == put16(old(v)@, at as int, val as nat),
{
    v.set(at, (val / 256) as u8);
    v.set(at + 1, (val % 256) as u8);
}

fn set32(v: &mut Vec<u8>, at: usize, val: u32)
    requires
        at + 4 <= old(v).len(),
    ensures
        final(v)@ == put32(old(v)@, at as int, val as nat),
{
    v.set(at, (val / 0x100_0000) as u8);
    v.set(at + 1, (val / 0x1_0000 % 256) as u8);
    v.set(at + 2, (val / 0x100 % 256) as u8);
    v.set(at + 3, (val % 256) as u8);
}

/// Fills in the checksum at `at` for what stands behind the IP header.
fn complete_checksum(packet: &mut Vec<u8>, ip_len: usize, at: usize)
    requires
        old(packet)@.len() > 0,
        pseudo_header_len(old(packet)@) <= ip_len <= at,
        at + 2 <= old(packet)@.len(),
        old(packet)@.len() - ip_len <= u32::MAX,
        pseudo_total(old(packet)@, (old(packet)@.len() - ip_len) as nat) + word_sum(
            put16(old(packet)@, at as int, 0).skip(ip_len as int),
        ) <= u32::MAX,
    ensures
        final(packet)@ == with_l4_checksum(old(packet)@, ip_len as int, at as int),
{
    let ghost s = packet@;
    set16(packet, at, 0);
    let n: usize = packet.len();
    let header = slice_subrange(packet.as_slice(), 0, ip_len);
    let body = slice_subrange(packet.as_slice(), ip_len, n);
    proof {
        assert(packet@ == put16(s, at as int, 0));
        assert(header@ =~= packet@.take(ip_len as int));
        assert(body@ =~= packet@.skip(ip_len as int));
        if s[0] / 16 == 4 {
            assert(header@.subrange(12, 20) =~= s.subrange(12, 20));
            assert(packet@.subrange(12, 20) =~= s.subrange(12, 20));
        } else {
            assert(header@.subrange(8, 40) =~= s.subrange(8, 40));
            assert(packet@.subrange(8, 40) =~= s.subrange(8, 40));
        }
    }
    let seed: u32 = pseudo_sum(header, n - ip_len);
    let parts = [body];
    let all: &[&[u8]] = parts.as_slice();
    proof {
        assert(all@ =~= seq![body]);
        reveal_with_fuel(parts_sum, 2);
        assert(all@.drop_last() =~= Seq::<&[u8]>::empty());
    }
    let sum: u16 = internet_checksum(seed, all);
    set16(packet, at, sum);
}

/// `base + by` modulo 2^16.
fn advanced16(base: u16, by: usize) -> (v: u16)
    ensures
        v == (base + by) as nat % 0x1_0000,
{
    proof {
        vstd::arithmetic::div_mod::lemma_add_mod_noop_right(base as int, by as int, 0x1_0000);
    }
    let step: u64 = by as u64 % 0x1_0000;
    ((base as u64 + step) % 0x1_0000) as u16
}

/// `base + by` modulo 2^32.
fn advanced32(base: u32, by: usize) -> (v: u32)
    ensures
        v == (base + by) as nat % 0x1_0000_0000,
{
    proof {
        vstd::arithmetic::div_mod::lemma_add_mod_noop_right(
            base as int,
            by as int,
            0x1_0000_0000,
        );
    }
    let step: u64 = by as u64 % 0x1_0000_0000;
    ((base as u64 + step) % 0x1_0000_0000) as u32
}

/// Writes the IP header fields of segment `index`.
fn set_ip_fields(seg: &mut Vec<u8>, index: usize)
    requires
        old(seg)@.len() >= 40,
        ihl_of(old(seg)@) <= old(seg)@.len(),
    ensures
        final(seg)@ == with_ip_fields(old(seg)@, index as nat),
        final(seg)@.len() == old(seg)@.len(),
{
    let ghost raw = seg@;
    let total: usize = seg.len();
    if seg[0] / 16 == 4 {
        let base_id: u16 = read_u16(seg.as_slice(), 4);
        let id: u16 = advanced16(base_id, index);
        set16(seg, 2, (total % 0x1_0000) as u16);
        set16(seg, 4, id);
        recompute_ipv4_checksum(seg);
    } else {
        set16(seg, 4, ((total - 40) % 0x1_0000) as u16);
    }
}

/// Writes the TCP fields of the segment at payload offset `start`.
fn set_tcp_fields(seg: &mut Vec<u8>, ip_len: usize, start: usize, is_last: bool)
    requires
        20 <= ip_len,
        pseudo_header_len(old(seg)@) <= ip_len,
        ip_len + 20 <= old(seg)@.len() <= 0x1_ffff,
    ensures
        final(seg)@ == with_tcp_fields(old(seg)@, ip_len as int, start as nat, is_last),
{
    let ghost raw = seg@;
    let base_seq: u32 = read_u32(seg.as_slice(), ip_len + 4);
    let seq: u32 = advanced32(base_seq, start);
    let flags: u8 = seg[ip_len + 13];
    set32(seg, ip_len + 4, seq);
    let trimmed: u8 = if is_last {
        flags
    } else {
        flags & 0xf6  // FIN | PSH only on the last segment

    };
    let trimmed: u8 = if start == 0 {
        trimmed
    } else {
        trimmed & 0x7f  // CWR only on the first

    };
    seg.set(ip_len + 13, trimmed);
    proof {
        let z = put16(seg@, ip_len + 16, 0);
        lemma_word_sum_bound(z.skip(ip_len as int));
        if seg@[0] / 16 == 4 {
            lemma_word_sum_bound(seg@.subrange(12, 20));
        } else {
            lemma_word_sum_bound(seg@.subrange(8, 40));
        }
    }
    complete_checksum(seg, ip_len, ip_len + 16);
}

/// Builds the `index`-th segment, whose payload starts at `start`.
fn build_segment(
    frame: &[u8],
    ip_len: usize,
    tcp_len: usize,
    mss: usize,
    start: usize,
    index: usize,
) -> (seg: Vec<u8>)
    requires
        tcp_layout(frame@) == Ok::<(nat, nat), VnetError>((ip_len as nat, tcp_len as nat)),
        ip_len >= 20,
        0 < mss <= 0xffff,
        ip_len + tcp_len + start < frame@.len(),
    ensures
        seg@ == segment(
            frame@,
            ip_len as nat,
            tcp_len as nat,
            mss as nat,
            start as nat,
            index as nat,
        ),
{
    let n: usize = frame.len();
    let headers_len: usize = ip_len + tcp_len;
    let left: usize = n - headers_len - start;
    let is_last = left <= mss;
    let take: usize = if is_last {
        left
    } else {
        mss
    };
    let mut seg = slice_to_vec(slice_subrange(frame, 0, headers_len));
    seg.extend_from_slice(slice_subrange(frame, headers_len + start, headers_len + start + take));
    proof {
        assert(seg@ =~= raw_segment(frame@, headers_len as nat, mss as nat, start as nat));
        assert(seg@[0] == frame@[0]);
    }
    let ghost raw = seg@;
    set_ip_fields(&mut seg, index);
    proof {
        assert(seg@[0] == raw[0]);
    }
    set_tcp_fields(&mut seg, ip_len, start, is_last);
    seg
}

fn segment_tcp(hdr: &VnetHdr, frame: &[u8], out: &mut Vec<Bytes>) -> (r: Result<(), VnetError>)
    requires
        hdr.gso_size > 0 ==> (tcp_layout(frame@) matches Ok((ip_len, _)) ==> ip_len >= 20),
    ensures
        match tcp_segments(frame@, hdr.gso_size as nat) {
            Ok(segs) => r is Ok && packets_of(final(out)@) == packets_of(old(out)@) + segs,
            Err(e) => r == Err::<(), VnetError>(e) && final(out)@ == old(out)@,
        },
{
    let mss: usize = hdr.gso_size as usize;
    let n: usize = frame.len();
    if mss == 0 || n == 0 {
        return Err(VnetError::Malformed);
    }
    // Derive the header split from the packet itself; hdr.hdr_len is only a
    // hint and some paths leave it 0.
    let version: u8 = frame[0] / 16;
    let ip_len: usize = if version == 4 && n >= 20 {
        (frame[0] % 16) as usize * 4
    } else if version == 6 && n >= 40 {
        40  // TSO frames carry no extension headers

    } else {
        return Err(VnetError::Malformed);
    };
    if n < ip_len + 20 {
        return Err(VnetError::Truncated);
    }
    let tcp_len: usize = (frame[ip_len + 12] / 16) as usize * 4;
    let headers_len: usize = ip_len + tcp_len;
    if tcp_len < 20 || n <= headers_len {
        return Err(VnetError::Malformed);
    }
    let payload_len: usize = n - headers_len;
    let mut start: usize = 0;
    let mut index: usize = 0;
    let ghost all = segments_from(frame@, ip_len as nat, tcp_len as nat, mss as nat, 0, 0);
    assert(packets_of(out@) + all =~= packets_of(old(out)@) + all);
    loop
        invariant_except_break
            packets_of(out@) + segments_from(
                frame@,
                ip_len as nat,
                tcp_len as nat,
                mss as nat,
                start as nat,
                index as nat,
            ) == packets_of(old(out)@) + all,
        invariant
            n == frame.len(),
            payload_len == n - headers_len,
            headers_len == ip_len + tcp_len,
            0 < mss <= 0xffff,
            ip_len >= 20,
            start < payload_len,
            index <= start,
            tcp_layout(frame@) == Ok::<(nat, nat), VnetError>((ip_len as nat, tcp_len as nat)),
        ensures
            packets_of(out@) == packets_of(old(out)@) + all,
        decreases payload_len - start,
    {
        let seg = build_segment(frame, ip_len, tcp_len, mss, start, index);
        let ghost before = packets_of(out@);
        let ghost rest = segments_from(
            frame@,
            ip_len as nat,
            tcp_len as nat,
            mss as nat,
            (start + mss) as nat,
            (index + 1) as nat,
        );
        out.push(copy_frozen(seg.as_slice()));
        proof {
            assert(packets_of(out@) =~= before.push(seg@));
            assert(before + (seq![seg@] + rest) =~= packets_of(out@) + rest);
        }
        if payload_len - start <= mss {
            assert(rest =~= Seq::<Seq<u8>>::empty());
            assert(packets_of(out@) + rest =~= packets_of(out@));
            break;
        }
        start = start + mss;
        index = index + 1;
    }
    Ok(())
}

/// Turn one frame read from the device (after the vnet header) into
/// ready-to-tunnel IP packets appended to `out`.
///
/// Non-GSO frames pass through, with their checksum completed when the
/// kernel left it partial (`NEEDS_CSUM`). TCP GSO frames are re-segmented
/// at `gso_size` with per-segment headers and checksums:
/// - IPv4: total length, ID incremented per segment, header checksum
/// - IPv6: payload length
/// - TCP: sequence advanced by the payload offset; CWR only on the first
///   segment, FIN/PSH only on the last; checksum over the pseudo-header
pub fn expand(hdr: &VnetHdr, frame: Bytes, out: &mut Vec<Bytes>) -> (r: Result<(), VnetError>)
    requires
        expandable(*hdr, frozen(frame)),
    ensures
        match expansion(*hdr, frozen(frame)) {
            Ok(packets) => r is Ok && packets_of(final(out)@) == packets_of(old(out)@) + packets,
            Err(e) => r == Err::<(), VnetError>(e) && final(out)@ == old(out)@,
        },
{
    let ghost s = frozen(frame);
    match hdr.gso_type {
        VIRTIO_NET_HDR_GSO_NONE => {
            if hdr.flags % 2 == 0 {
                out.push(frame);
                proof {
                    assert(packets_of(out@) =~= packets_of(old(out)@) + seq![s]);
                }
                return Ok(());
            }
            let start: usize = hdr.csum_start as usize;
            let at: usize = start + hdr.csum_offset as usize;
            let whole = frozen_slice(&frame);
            if at + 2 > whole.len() {
                return Err(VnetError::Truncated);
            }
            // Rebuild the pseudo-header sum ourselves rather than trusting
            // the value the kernel stashed in the field: it is cheap and
            // independent of kernel quirks. csum_start is the L4 offset.
            let mut packet = slice_to_vec(whole);
            complete_checksum(&mut packet, start, at);
            out.push(copy_frozen(packet.as_slice()));
            proof {
                assert(packets_of(out@) =~= packets_of(old(out)@) + seq![packet@]);
            }
            Ok(())
        },
        VIRTIO_NET_HDR_GSO_TCPV4 | VIRTIO_NET_HDR_GSO_TCPV6 => segment_tcp(
            hdr,
            frozen_slice(&frame),
            out,
        ),
        other => Err(VnetError::UnsupportedGso(other)),
    }
}

/// What stands behind the IP header verifies exactly if its words and those of
/// its pseudo-header sum to a multiple of 65535.
pub proof fn lemma_l4_meaning(s: Seq<u8>, ip_len: int)
    requires
        0 <= ip_len <= s.len(),
    ensures
        l4_checksum(s, ip_len) == 0 <==> {
            let n = pseudo_total(s, (s.len() - ip_len) as nat) + word_sum(s.skip(ip_len));
            n > 0 && n % 65535 == 0
        },
{
    crate::forwarding::checksum::lemma_seeded_meaning(
        pseudo_total(s, (s.len() - ip_len) as nat),
        s.skip(ip_len),
    );
}

/// The sum over several parts is the sum of their sums.
pub proof fn lemma_parts_sum(parts: Seq<&[u8]>, part: &[u8])
    ensures
        parts_sum(Seq::empty()) == 0,
        parts_sum(parts.push(part)) == parts_sum(parts) + word_sum(part@),
{
    assert(parts.push(part).drop_last() =~= parts);
}

} // verus!
