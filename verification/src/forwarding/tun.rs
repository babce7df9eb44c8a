//! Kernel TUN device framing.
//!
//! The engine never touches the device directly: packets to the network go
//! into a queue and packets from the network come out of one. The platforms
//! differ:
//!
//! - Linux — `IFF_VNET_HDR` on every read/write, so reads arrive as GSO
//!   aggregates carrying a virtio-net header and are re-segmented in
//!   [`crate::forwarding::vnet`]. That is where the throughput comes from and
//!   also where most of the complexity is.
//! - macOS — utun, which has neither a virtio-net header nor TSO, so a read
//!   is one plain IP packet. Simpler, and slower per packet.

use bytes::Bytes;
use vstd::arithmetic::power2::pow2;
use vstd::prelude::*;
use vstd::slice::slice_subrange;

use crate::buf::copy_frozen;
use crate::error::ProxyError;
use crate::forwarding::checksum::lemma_word_sum_bound;
use crate::forwarding::packet::ihl_of;
use crate::forwarding::vnet::{
    encode_none, expand, expandable, expansion, packets_of, pseudo_header_len, put16, VnetHdr,
    VIRTIO_NET_HDR_GSO_ECN, VIRTIO_NET_HDR_GSO_NONE, VIRTIO_NET_HDR_GSO_TCPV4,
    VIRTIO_NET_HDR_GSO_TCPV6, VNET_HDR_LEN,
};
use crate::net::{lemma_net_bounds, Ipv4Addr, Ipv4Net, Ipv6Addr};
use crate::text::chars_of;

verus! {

/// Configuration for the kernel TUN device.
#[derive(Debug)]
pub struct TunConfig {
    /// Requested device name. Linux takes it verbatim; macOS requires
    /// `utun<N>` and falls back to a kernel-assigned name for anything else.
    pub name: String,
    pub mtu: u16,
    /// Address + prefix length to configure on the device (the proxy-side
    /// gateway for the client pool), e.g. 10.100.0.1/24.
    pub ipv4: Option<(Ipv4Addr, u8)>,
    /// IPv6 gateway address + prefix length, e.g. fd00:6d61:7371::1/64.
    pub ipv6: Option<(Ipv6Addr, u8)>,
}

/// Depth of the device queues; beyond this, datagrams are dropped.
pub const CHANNEL_DEPTH: usize = 1024;

/// Largest single packet accepted from the device, independent of the
/// configured MTU so raising the device MTU at runtime cannot truncate.
pub const MAX_PACKET: usize = 65_536;

/// Read buffer size, independent of the configured MTU.
///
/// A buffer sized from the MTU silently truncates once the device MTU is
/// raised at runtime (which `strawc` does as QUIC path-MTU discovery ramps),
/// and a truncated IP packet is indistinguishable from a malformed one
/// downstream. One large buffer per device costs nothing next to that.
pub const READ_BUFFER: usize = 262_144;

/// A mask of `prefix` leading ones; more than 32 count as 32.
pub open spec fn mask_bits(prefix: u8) -> u32 {
    (0x1_0000_0000 - pow2(if prefix >= 32 {
        0
    } else {
        (32 - prefix) as nat
    })) as u32
}

/// The netmask of an IPv4 prefix length. Nonsense prefixes saturate.
pub fn prefix_to_netmask(prefix: u8) -> (mask: Ipv4Addr)
    ensures
        mask.bits == mask_bits(prefix),
{
    let zero = Ipv4Net { addr: Ipv4Addr { bits: 0 }, prefix_len: prefix };
    let last = zero.broadcast();
    proof {
        vstd::arithmetic::power2::lemma2_to64();
        lemma_net_bounds(0, 32, prefix as nat);
        let size = crate::net::net_size(32, prefix as nat);
        vstd::arithmetic::div_mod::lemma_small_mod(0, size);
    }
    Ipv4Addr { bits: u32::MAX - last.bits }
}

/// `utun` followed by a unit number and nothing else.
pub open spec fn is_utun(name: Seq<char>) -> bool {
    &&& name.len() > 4
    &&& name[0] == 'u'
    &&& name[1] == 't'
    &&& name[2] == 'u'
    &&& name[3] == 'n'
    &&& forall|i: int| 4 <= i < name.len() ==> '0' <= #[trigger] name[i] <= '9'
}

/// Whether `name` is a utun name the kernel will accept: `utun` followed by a
/// unit number and nothing else.
pub fn is_utun_name(name: &str) -> (v: bool)
    ensures
        v == is_utun(name@),
{
    let chars = chars_of(name);
    if chars.len() <= 4 || chars[0] != 'u' || chars[1] != 't' || chars[2] != 'u' || chars[3]
        != 'n' {
        return false;
    }
    let mut i: usize = 4;
    while i < chars.len()
        invariant
            4 <= i <= chars@.len(),
            chars@ == name@,
            forall|j: int| 4 <= j < i ==> '0' <= #[trigger] name@[j] <= '9',
        decreases chars@.len() - i,
    {
        let c = chars[i];
        if c < '0' || c > '9' {
            proof {
                assert(!('0' <= name@[i as int] <= '9'));
            }
            return false;
        }
        i = i + 1;
    }
    true
}

/// What a utun device is asked for. Only `utun<N>` is a legal utun name, so
/// for anything else the kernel picks the next free unit and reports which
/// one. An IPv6 address is refused rather than bringing the device up
/// silently missing it.
pub fn utun_name_request(cfg: &TunConfig) -> (r: Result<Option<String>, ProxyError>)
    ensures
        match cfg.ipv6 {
            Some(_) => r matches Err(ProxyError::Config(t)) && t@
                == "IPv6 on the TUN device is not supported on macOS yet"@,
            None => match r {
                Ok(Some(name)) => is_utun(cfg.name@) && name == cfg.name,
                Ok(None) => !is_utun(cfg.name@),
                Err(_) => false,
            },
        },
{
    if cfg.ipv6.is_some() {
        return Err(
            ProxyError::Config(
                String::from_str("IPv6 on the TUN device is not supported on macOS yet"),
            ),
        );
    }
    if is_utun_name(cfg.name.as_str()) {
        Ok(Some(cfg.name.clone()))
    } else {
        Ok(None)
    }
}

/// The header of a frame.
pub open spec fn header_of(frame: Seq<u8>) -> VnetHdr {
    VnetHdr {
        flags: frame[0],
        gso_type: (frame[1] % VIRTIO_NET_HDR_GSO_ECN) as u8,
        hdr_len: crate::forwarding::vnet::le16(frame, 2),
        gso_size: crate::forwarding::vnet::le16(frame, 4),
        csum_start: crate::forwarding::vnet::le16(frame, 6),
        csum_offset: crate::forwarding::vnet::le16(frame, 8),
    }
}

/// A frame the kernel may send: its checksum starts behind the IP header, and
/// an IPv4 header that is to be segmented is not cut short.
pub open spec fn sane_frame(hdr: VnetHdr, s: Seq<u8>) -> bool {
    &&& s.len() <= MAX_PACKET
    &&& s.len() > 0
    &&& hdr.gso_type == VIRTIO_NET_HDR_GSO_NONE && hdr.flags % 2 != 0 ==> hdr.csum_start
        >= pseudo_header_len(s)
    &&& hdr.gso_type == VIRTIO_NET_HDR_GSO_TCPV4 || hdr.gso_type == VIRTIO_NET_HDR_GSO_TCPV6
        ==> s[0] / 16 != 4 || ihl_of(s) >= 20
}

proof fn lemma_sane_expandable(hdr: VnetHdr, s: Seq<u8>)
    requires
        sane_frame(hdr, s),
    ensures
        expandable(hdr, s),
{
    if hdr.gso_type == VIRTIO_NET_HDR_GSO_NONE && hdr.flags % 2 != 0 && hdr.csum_start
        + hdr.csum_offset + 2 <= s.len() {
        let z = put16(s, hdr.csum_start + hdr.csum_offset, 0);
        lemma_word_sum_bound(z.skip(hdr.csum_start as int));
        lemma_word_sum_bound(s.subrange(12, 20));
        lemma_word_sum_bound(s.subrange(8, 40));
    }
}

/// The IP packets that one frame read from the device carries; none for a
/// frame that is to be dropped. A GSO aggregate becomes MTU-sized packets
/// here — one read carries up to 64 KB of TCP.
pub fn read_frame(frame: &[u8]) -> (r: Option<Vec<Bytes>>)
    ensures
        ({
            let hdr = header_of(frame@);
            let s = frame@.skip(VNET_HDR_LEN as int);
            match r {
                Some(packets) => {
                    &&& frame@.len() > VNET_HDR_LEN
                    &&& sane_frame(hdr, s)
                    &&& expansion(hdr, s) matches Ok(expected)
                    &&& packets_of(packets@) == expected
                },
                None => frame@.len() <= VNET_HDR_LEN || !sane_frame(hdr, s) || expansion(
                    hdr,
                    s,
                ) is Err,
            }
        }),
{
    if frame.len() <= VNET_HDR_LEN {
        return None;
    }
    let hdr = match VnetHdr::parse(frame) {
        Some(hdr) => hdr,
        None => {
            return None;
        },
    };
    let body: &[u8] = slice_subrange(frame, VNET_HDR_LEN, frame.len());
    proof {
        assert(body@ =~= frame@.skip(VNET_HDR_LEN as int));
    }
    if body.len() > MAX_PACKET {
        return None;
    }
    let version: u8 = body[0] / 16;
    if hdr.gso_type == VIRTIO_NET_HDR_GSO_NONE && hdr.flags % 2 != 0 {
        let least: u16 = if version == 4 {
            20
        } else {
            40
        };
        if hdr.csum_start < least {
            return None;
        }
    }
    if hdr.gso_type == VIRTIO_NET_HDR_GSO_TCPV4 || hdr.gso_type == VIRTIO_NET_HDR_GSO_TCPV6 {
        if version == 4 && body[0] % 16 < 5 {
            return None;
        }
    }
    proof {
        lemma_sane_expandable(hdr, body@);
    }
    let mut out: Vec<Bytes> = Vec::new();
    match expand(&hdr, copy_frozen(body), &mut out) {
        Ok(_) => {
            proof {
                assert(packets_of(Seq::<Bytes>::empty()) =~= Seq::<Seq<u8>>::empty());
                let expected = expansion(hdr, body@)->Ok_0;
                assert(packets_of(out@) =~= expected);
            }
            Some(out)
        },
        Err(_) => None,
    }
}

/// A packet framed for the device: a null header in front, since the packet
/// came through the tunnel with its checksum already valid.
pub fn write_frame(packet: &[u8]) -> (frame: Vec<u8>)
    ensures
        frame@ == seq![0u8, 0, 0, 0, 0, 0, 0, 0, 0, 0] + packet@,
{
    let hdr = encode_none();
    let mut frame: Vec<u8> = Vec::new();
    let mut i: usize = 0;
    while i < 10
        invariant
            i <= 10,
            hdr@.len() == 10,
            forall|j: int| 0 <= j < 10 ==> #[trigger] hdr@[j] == 0,
            frame@ == hdr@.take(i as int),
        decreases 10 - i,
    {
        frame.push(hdr[i]);
        i = i + 1;
        proof {
            assert(hdr@.take(i as int) =~= hdr@.take(i - 1).push(hdr@[i - 1]));
        }
    }
    frame.extend_from_slice(packet);
    proof {
        assert(hdr@.take(10) =~= seq![0u8, 0, 0, 0, 0, 0, 0, 0, 0, 0]);
        assert(frame@ =~= seq![0u8, 0, 0, 0, 0, 0, 0, 0, 0, 0] + packet@);
    }
    frame
}

/// A netmask has a bit set for each of the first bits of an address, as many as
/// the prefix is long, and no other.
pub proof fn lemma_mask(prefix: u8)
    ensures
        prefix <= 32 ==> mask_bits(prefix) + pow2((32 - prefix) as nat) == 0x1_0000_0000,
        prefix >= 32 ==> mask_bits(prefix) == 0xffff_ffff,
        prefix == 0 ==> mask_bits(prefix) == 0,
{
    vstd::arithmetic::power2::lemma2_to64();
    if prefix < 32 {
        vstd::arithmetic::power2::lemma_pow2_strictly_increases(0, (32 - prefix) as nat);
        if prefix > 0 {
            vstd::arithmetic::power2::lemma_pow2_strictly_increases((32 - prefix) as nat, 32);
        }
    }
}

/// The header in front of a frame holds, byte by byte, the flags, the kind of
/// aggregate, and four numbers with the low byte first.
pub proof fn lemma_header(frame: Seq<u8>)
    ensures
        ({
            let h = header_of(frame);
            &&& h.flags == frame[0]
            &&& h.gso_type == frame[1] % 128
            &&& h.hdr_len == frame[2] + frame[3] * 256
            &&& h.gso_size == frame[4] + frame[5] * 256
            &&& h.csum_start == frame[6] + frame[7] * 256
            &&& h.csum_offset == frame[8] + frame[9] * 256
        }),
{
}

/// A packet behind an empty header, which is how packets are written, is read
/// as that packet.
pub proof fn lemma_plain_frame(packet: Seq<u8>)
    requires
        0 < packet.len() <= MAX_PACKET,
    ensures
        ({
            let frame = seq![0u8, 0, 0, 0, 0, 0, 0, 0, 0, 0] + packet;
            let hdr = header_of(frame);
            &&& frame.skip(10) == packet
            &&& sane_frame(hdr, packet)
            &&& expansion(hdr, packet) == Ok::<
                Seq<Seq<u8>>,
                crate::forwarding::vnet::VnetError,
            >(seq![packet])
        }),
{
    let frame = seq![0u8, 0, 0, 0, 0, 0, 0, 0, 0, 0] + packet;
    assert(frame.skip(10) =~= packet);
    lemma_header(frame);
}

/// The names that macOS takes for a device are `utun` and a number.
pub proof fn lemma_utun(name: Seq<char>, digits: Seq<char>)
    ensures
        is_utun(seq!['u', 't', 'u', 'n'] + digits) <==> digits.len() > 0 && forall|i: int|
            0 <= i < digits.len() ==> '0' <= #[trigger] digits[i] <= '9',
        !seq!['u', 't', 'u', 'n'].is_prefix_of(name) ==> !is_utun(name),
{
    let n = seq!['u', 't', 'u', 'n'] + digits;
    if is_utun(n) {
        assert forall|i: int| 0 <= i < digits.len() implies '0' <= #[trigger] digits[i]
            <= '9' by {
            assert(n[i + 4] == digits[i]);
        }
    }
    if forall|i: int| 0 <= i < digits.len() ==> '0' <= #[trigger] digits[i] <= '9' {
        assert forall|i: int| 4 <= i < n.len() implies '0' <= #[trigger] n[i] <= '9' by {
            assert(n[i] == digits[i - 4]);
        }
    }
    if is_utun(name) {
        assert(name.take(4) =~= seq!['u', 't', 'u', 'n']);
    }
}

} // verus!
