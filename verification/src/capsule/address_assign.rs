//! ADDRESS_ASSIGN (RFC 9484 §4.7.1).

use bytes::BytesMut;
use vstd::prelude::*;
use vstd::slice::slice_subrange;

use crate::bigendian::{be32, be_value, lemma_be_value_4};
use crate::buf::{append, buffered, has_room};
use crate::capsule::codec::{
    lemma_varint_bytes, lemma_varint_roundtrip, read_varint, varint_at, varint_bytes, varint_len,
    varint_width, write_varint, VARINT_MAX,
};
use crate::capsule::{AddressAssign, AssignedAddress, CAPSULE_ADDRESS_ASSIGN};
use crate::error::DecodeError;
use crate::net::{IpAddr, Ipv4Addr, Ipv6Addr};

verus! {

/// The address of the given version at the front of `s`, and its length.
pub open spec fn ip_at(s: Seq<u8>, ip_version: u8) -> Result<(IpAddr, nat), DecodeError> {
    if ip_version == 4 {
        if s.len() < 4 {
            Err(DecodeError::BufferTooShort { needed: 4, available: s.len() as usize })
        } else {
            Ok((IpAddr::V4(Ipv4Addr { bits: be32(s, 0) as u32 }), 4))
        }
    } else if ip_version == 6 {
        if s.len() < 16 {
            Err(DecodeError::BufferTooShort { needed: 16, available: s.len() as usize })
        } else {
            Ok((IpAddr::V6(Ipv6Addr { bits: be_value(s.take(16)) as u128 }), 16))
        }
    } else {
        Err(DecodeError::InvalidIpVersion(ip_version))
    }
}

/// Whether a prefix length is valid for the given IP version, and if not why.
pub open spec fn prefix_length_check(ip_version: u8, prefix_len: u8) -> Result<(), DecodeError> {
    if ip_version != 4 && ip_version != 6 {
        Err(DecodeError::InvalidIpVersion(ip_version))
    } else if prefix_len > if ip_version == 4 {
        32u8
    } else {
        128u8
    } {
        Err(DecodeError::InvalidPrefixLength { ip_version, prefix_len })
    } else {
        Ok(())
    }
}

/// What stands behind the request id of an entry: version, address, prefix
/// length, and how many bytes they take.
pub open spec fn prefix_at(s: Seq<u8>) -> Result<(u8, IpAddr, u8, nat), DecodeError> {
    if s.len() == 0 {
        Err(DecodeError::Underflow)
    } else {
        match ip_at(s.skip(1), s[0]) {
            Err(e) => Err(e),
            Ok((ip, n)) => if s.len() <= 1 + n {
                Err(DecodeError::Underflow)
            } else {
                match prefix_length_check(s[0], s[1 + n as int]) {
                    Err(e) => Err(e),
                    Ok(_) => Ok((s[0], ip, s[1 + n as int], n + 2)),
                }
            },
        }
    }
}

/// The entry at the front of `s`, and its length.
pub open spec fn assigned_at(s: Seq<u8>) -> Result<(AssignedAddress, nat), DecodeError> {
    match varint_at(s) {
        None => Err(DecodeError::Underflow),
        Some((request_id, n)) => match prefix_at(s.skip(n as int)) {
            Err(e) => Err(e),
            Ok((ip_version, ip_address, prefix_length, m)) => Ok(
                (AssignedAddress { request_id, ip_version, ip_address, prefix_length }, n + m),
            ),
        },
    }
}

/// An entry that parses takes at least one byte and no more than there are.
pub proof fn lemma_assigned_at_len(s: Seq<u8>)
    ensures
        assigned_at(s) matches Ok((_, n)) ==> 1 <= n <= s.len(),
{
}

/// All entries of a payload, or the first error among them.
pub open spec fn assigned_list(s: Seq<u8>) -> Result<Seq<AssignedAddress>, DecodeError>
    decreases s.len(),
{
    if s.len() == 0 {
        Ok(Seq::empty())
    } else {
        match assigned_at(s) {
            Err(e) => Err(e),
            Ok((a, n)) => if 1 <= n <= s.len() {
                match assigned_list(s.skip(n as int)) {
                    Err(e) => Err(e),
                    Ok(rest) => Ok(seq![a] + rest),
                }
            } else {
                Err(DecodeError::Underflow)
            },
        }
    }
}

/// The encoding of version, address and prefix length.
pub open spec fn prefix_bytes(ip_version: u8, ip: IpAddr, prefix_length: u8) -> Seq<u8> {
    seq![ip_version] + ip.spec_octets() + seq![prefix_length]
}

/// The encoding of one entry.
pub open spec fn assigned_bytes(a: AssignedAddress) -> Seq<u8> {
    varint_bytes(a.request_id) + prefix_bytes(a.ip_version, a.ip_address, a.prefix_length)
}

/// The encoding of a list of entries.
pub open spec fn assigned_payload(s: Seq<AssignedAddress>) -> Seq<u8>
    decreases s.len(),
{
    if s.len() == 0 {
        Seq::empty()
    } else {
        assigned_payload(s.drop_last()) + assigned_bytes(s.last())
    }
}

/// The length an entry is announced with: the version field decides how long
/// its address counts.
pub open spec fn entry_len(request_id: u64, ip_version: u8) -> nat {
    varint_width(request_id) + 2 + if ip_version == 4 {
        4nat
    } else {
        16nat
    }
}

/// The payload length that a capsule announces.
pub open spec fn assigned_len(s: Seq<AssignedAddress>) -> nat
    decreases s.len(),
{
    if s.len() == 0 {
        0
    } else {
        assigned_len(s.drop_last()) + entry_len(s.last().request_id, s.last().ip_version)
    }
}

/// An entry that the wire format can carry: the request id is encodable, the
/// version is that of the address, and the prefix length fits.
pub open spec fn entry_wf(
    request_id: u64,
    ip_version: u8,
    ip_address: IpAddr,
    prefix_length: u8,
) -> bool {
    &&& request_id <= VARINT_MAX
    &&& ip_version == ip_address.spec_version()
    &&& prefix_length <= ip_address.spec_width()
}

impl AssignedAddress {
    pub open spec fn wf(self) -> bool {
        entry_wf(self.request_id, self.ip_version, self.ip_address, self.prefix_length)
    }
}

/// Reading an address back from its octets.
pub proof fn lemma_ip_roundtrip(ip: IpAddr, rest: Seq<u8>)
    ensures
        ip_at(ip.spec_octets() + rest, ip.spec_version()) == Ok::<(IpAddr, nat), DecodeError>(
            (ip, ip.spec_octets().len()),
        ),
        ip.spec_octets().len() == if ip is V4 {
            4nat
        } else {
            16nat
        },
{
    let s = ip.spec_octets() + rest;
    crate::bigendian::lemma_pow256_values();
    match ip {
        IpAddr::V4(a) => {
            crate::bigendian::lemma_be_bytes_len(a.bits as nat, 4);
            crate::bigendian::lemma_be_value_of_bytes(a.bits as nat, 4);
            lemma_be_value_4(s, 0);
            assert(s.subrange(0, 4) =~= a.spec_octets());
        },
        IpAddr::V6(a) => {
            crate::bigendian::lemma_be_bytes_len(a.bits as nat, 16);
            crate::bigendian::lemma_be_value_of_bytes(a.bits as nat, 16);
            assert(s.take(16) =~= a.spec_octets());
        },
    }
}

/// Reading version, address and prefix length back.
pub proof fn lemma_prefix_roundtrip(ip: IpAddr, prefix_length: u8, rest: Seq<u8>)
    requires
        prefix_length <= ip.spec_width(),
    ensures
        ({
            let enc = prefix_bytes(ip.spec_version(), ip, prefix_length);
            prefix_at(enc + rest) == Ok::<(u8, IpAddr, u8, nat), DecodeError>(
                (ip.spec_version(), ip, prefix_length, enc.len()),
            )
        }),
{
    let version = ip.spec_version();
    let enc = prefix_bytes(version, ip, prefix_length);
    let s = enc + rest;
    lemma_ip_roundtrip(ip, seq![prefix_length] + rest);
    assert(s.skip(1) =~= ip.spec_octets() + (seq![prefix_length] + rest));
    let n = ip.spec_octets().len();
    assert(s[1 + n as int] == prefix_length);
}

/// Reading an entry back.
pub proof fn lemma_assigned_roundtrip(a: AssignedAddress, rest: Seq<u8>)
    requires
        a.wf(),
    ensures
        assigned_at(assigned_bytes(a) + rest) == Ok::<(AssignedAddress, nat), DecodeError>(
            (a, assigned_bytes(a).len()),
        ),
        assigned_bytes(a).len() == entry_len(a.request_id, a.ip_version),
{
    let tail = prefix_bytes(a.ip_version, a.ip_address, a.prefix_length);
    let s = assigned_bytes(a) + rest;
    let id = varint_bytes(a.request_id);
    lemma_varint_roundtrip(a.request_id, tail + rest);
    lemma_varint_bytes(a.request_id);
    assert(s =~= id + (tail + rest));
    assert(s.skip(id.len() as int) =~= tail + rest);
    lemma_prefix_roundtrip(a.ip_address, a.prefix_length, rest);
    lemma_ip_roundtrip(a.ip_address, rest);
}

/// The payload of a list splits off its first entry.
proof fn lemma_assigned_payload_front(s: Seq<AssignedAddress>)
    requires
        s.len() > 0,
    ensures
        assigned_payload(s) == assigned_bytes(s[0]) + assigned_payload(s.skip(1)),
    decreases s.len(),
{
    if s.len() == 1 {
        assert(s.skip(1) =~= Seq::<AssignedAddress>::empty());
        assert(s.drop_last() =~= Seq::<AssignedAddress>::empty());
        assert(assigned_payload(s) =~= assigned_bytes(s[0]) + assigned_payload(s.skip(1)));
    } else {
        lemma_assigned_payload_front(s.drop_last());
        assert(s.drop_last().skip(1) =~= s.skip(1).drop_last());
        assert(assigned_payload(s) =~= assigned_bytes(s[0]) + assigned_payload(s.skip(1)));
    }
}

/// The payload of carriable entries decodes to those entries, and is as long
/// as the capsule announces.
pub proof fn lemma_assigned_list_roundtrip(s: Seq<AssignedAddress>)
    requires
        forall|i: int| 0 <= i < s.len() ==> (#[trigger] s[i]).wf(),
    ensures
        assigned_list(assigned_payload(s)) == Ok::<Seq<AssignedAddress>, DecodeError>(s),
        assigned_payload(s).len() == assigned_len(s),
    decreases s.len(),
{
    if s.len() > 0 {
        lemma_assigned_len(s);
        lemma_assigned_payload_front(s);
        lemma_assigned_list_roundtrip(s.skip(1));
        let rest = assigned_payload(s.skip(1));
        lemma_assigned_roundtrip(s[0], rest);
        let p = assigned_payload(s);
        let n = assigned_bytes(s[0]).len();
        assert(p.skip(n as int) =~= rest);
        assert(seq![s[0]] + s.skip(1) =~= s);
    } else {
        assert(s =~= Seq::<AssignedAddress>::empty());
    }
}

proof fn lemma_assigned_len(s: Seq<AssignedAddress>)
    requires
        forall|i: int| 0 <= i < s.len() ==> (#[trigger] s[i]).wf(),
    ensures
        assigned_payload(s).len() == assigned_len(s),
    decreases s.len(),
{
    if s.len() > 0 {
        lemma_assigned_len(s.drop_last());
        lemma_assigned_roundtrip(s.last(), Seq::empty());
    }
}

/// Decode an IP address from the buffer based on the version byte.
pub fn decode_ip_address(buf: &mut &[u8], ip_version: u8) -> (r: Result<IpAddr, DecodeError>)
    ensures
        match ip_at(old(buf)@, ip_version) {
            Ok((ip, n)) => r == Ok::<IpAddr, DecodeError>(ip) && n <= old(buf)@.len() && final(buf)@ == old(buf)@.skip(n as int),
            Err(e) => r == Err::<IpAddr, DecodeError>(e) && final(buf)@ == old(buf)@,
        },
{
    let s: &[u8] = *buf;
    let total: usize = s.len();
    match ip_version {
        4 => {
            if total < 4 {
                return Err(DecodeError::BufferTooShort { needed: 4, available: total });
            }
            let a = Ipv4Addr::read(s, 0);
            *buf = slice_subrange(s, 4, total);
            Ok(IpAddr::V4(a))
        },
        6 => {
            if total < 16 {
                return Err(DecodeError::BufferTooShort { needed: 16, available: total });
            }
            let a = Ipv6Addr::read(s, 0);
            proof {
                assert(s@.subrange(0, 16) =~= s@.take(16));
            }
            *buf = slice_subrange(s, 16, total);
            Ok(IpAddr::V6(a))
        },
        _ => Err(DecodeError::InvalidIpVersion(ip_version)),
    }
}

/// Validate that a prefix length is valid for the given IP version.
pub fn validate_prefix_length(ip_version: u8, prefix_len: u8) -> (r: Result<(), DecodeError>)
    ensures
        r == prefix_length_check(ip_version, prefix_len),
{
    let max: u8 = match ip_version {
        4 => 32,
        6 => 128,
        _ => {
            return Err(DecodeError::InvalidIpVersion(ip_version));
        },
    };
    if prefix_len > max {
        return Err(DecodeError::InvalidPrefixLength { ip_version, prefix_len });
    }
    Ok(())
}

/// Decode version, address and prefix length: what follows a request id.
pub(crate) fn decode_prefix(buf: &mut &[u8]) -> (r: Result<(u8, IpAddr, u8), DecodeError>)
    ensures
        match prefix_at(old(buf)@) {
            Ok((v, ip, len, n)) => r == Ok::<(u8, IpAddr, u8), DecodeError>((v, ip, len)) && n
                <= old(buf)@.len() && final(buf)@ == old(buf)@.skip(n as int),
            Err(e) => r == Err::<(u8, IpAddr, u8), DecodeError>(e),
        },
{
    let s: &[u8] = *buf;
    if s.len() == 0 {
        return Err(DecodeError::Underflow);
    }
    let ip_version: u8 = s[0];
    let mut rest: &[u8] = slice_subrange(s, 1, s.len());
    assert(rest@ =~= s@.skip(1));
    let ip_address = match decode_ip_address(&mut rest, ip_version) {
        Ok(ip) => ip,
        Err(e) => {
            return Err(e);
        },
    };
    if rest.len() == 0 {
        return Err(DecodeError::Underflow);
    }
    let prefix_length: u8 = rest[0];
    match validate_prefix_length(ip_version, prefix_length) {
        Ok(_) => {},
        Err(e) => {
            return Err(e);
        },
    }
    *buf = slice_subrange(rest, 1, rest.len());
    proof {
        let n = s@.skip(1).len() - rest@.len();
        assert(buf@ =~= s@.skip(n + 2));
    }
    Ok((ip_version, ip_address, prefix_length))
}

fn decode_assigned_address(buf: &mut &[u8]) -> (r: Result<AssignedAddress, DecodeError>)
    ensures
        match assigned_at(old(buf)@) {
            Ok((a, n)) => r == Ok::<AssignedAddress, DecodeError>(a) && 1 <= n <= old(buf)@.len()
                && final(buf)@ == old(buf)@.skip(n as int),
            Err(e) => r == Err::<AssignedAddress, DecodeError>(e),
        },
{
    let ghost s = buf@;
    let request_id: u64 = match read_varint(buf) {
        Ok(v) => v,
        Err(e) => {
            return Err(e);
        },
    };
    let ghost n = varint_at(s).unwrap().1;
    match decode_prefix(buf) {
        Ok((ip_version, ip_address, prefix_length)) => {
            proof {
                let m = prefix_at(s.skip(n as int))->Ok_0.3;
                assert(buf@ =~= s.skip((n + m) as int));
            }
            Ok(AssignedAddress { request_id, ip_version, ip_address, prefix_length })
        },
        Err(e) => Err(e),
    }
}

/// Encode version, address and prefix length.
pub(crate) fn encode_prefix(
    ip_version: u8,
    ip_address: &IpAddr,
    prefix_length: u8,
    buf: &mut BytesMut,
)
    requires
        has_room(*old(buf), prefix_bytes(ip_version, *ip_address, prefix_length).len()),
    ensures
        buffered(*final(buf)) == buffered(*old(buf)) + prefix_bytes(
            ip_version,
            *ip_address,
            prefix_length,
        ),
{
    let mut out: Vec<u8> = Vec::new();
    out.push(ip_version);
    let mut octets = ip_address.octets();
    out.append(&mut octets);
    out.push(prefix_length);
    assert(out@ =~= prefix_bytes(ip_version, *ip_address, prefix_length));
    append(buf, out.as_slice());
}

fn encode_assigned_address(addr: &AssignedAddress, buf: &mut BytesMut)
    requires
        addr.request_id <= VARINT_MAX,
        has_room(*old(buf), assigned_bytes(*addr).len()),
    ensures
        buffered(*final(buf)) == buffered(*old(buf)) + assigned_bytes(*addr),
{
    proof {
        lemma_varint_bytes(addr.request_id);
    }
    let _ = write_varint(buf, addr.request_id);
    encode_prefix(addr.ip_version, &addr.ip_address, addr.prefix_length, buf);
    proof {
        assert(buffered(*buf) =~= buffered(*old(buf)) + assigned_bytes(*addr));
    }
}

/// The payload of a prefix of a list is no longer than that of the list.
proof fn lemma_assigned_payload_take(s: Seq<AssignedAddress>, i: int)
    requires
        0 <= i < s.len(),
    ensures
        assigned_payload(s.take(i + 1)) == assigned_payload(s.take(i)) + assigned_bytes(s[i]),
        assigned_len(s.take(i + 1)) == assigned_len(s.take(i)) + entry_len(
            s[i].request_id,
            s[i].ip_version,
        ),
        assigned_payload(s.take(i + 1)).len() <= assigned_payload(s).len(),
        assigned_len(s.take(i + 1)) <= assigned_len(s),
    decreases s.len() - i,
{
    assert(s.take(i + 1).drop_last() =~= s.take(i));
    if i + 1 < s.len() {
        lemma_assigned_payload_take(s, i + 1);
        assert(s.take(i + 2).drop_last() =~= s.take(i + 1));
    } else {
        assert(s.take(i + 1) =~= s);
    }
}

impl AddressAssign {
    /// Every request id can be written as a variable-length integer.
    pub open spec fn encodable(self) -> bool {
        forall|i: int|
            0 <= i < self.assigned_addresses@.len() ==> (#[trigger] self.assigned_addresses@[i]).request_id
                <= VARINT_MAX
    }

    /// Decode an ADDRESS_ASSIGN capsule payload (without the type/length envelope).
    pub fn decode(payload: &[u8]) -> (r: Result<Self, DecodeError>)
        ensures
            match assigned_list(payload@) {
                Ok(list) => r is Ok && r->Ok_0.assigned_addresses@ == list,
                Err(e) => r == Err::<Self, DecodeError>(e),
            },
    {
        let mut assigned_addresses: Vec<AssignedAddress> = Vec::new();
        let mut rest: &[u8] = payload;
        assert(match assigned_list(rest@) {
            Ok(t) => Ok::<Seq<AssignedAddress>, DecodeError>(assigned_addresses@ + t),
            Err(e) => Err(e),
        } == assigned_list(payload@)) by {
            if let Ok(t) = assigned_list(rest@) {
                assert(assigned_addresses@ + t =~= t);
            }
        }
        while rest.len() > 0
            invariant
                match assigned_list(rest@) {
                    Ok(t) => Ok::<Seq<AssignedAddress>, DecodeError>(assigned_addresses@ + t),
                    Err(e) => Err(e),
                } == assigned_list(payload@),
            decreases rest@.len(),
        {
            let ghost before = rest@;
            let ghost done = assigned_addresses@;
            match decode_assigned_address(&mut rest) {
                Ok(addr) => {
                    assigned_addresses.push(addr);
                    proof {
                        if let Ok(t) = assigned_list(rest@) {
                            assert(done + (seq![addr] + t) =~= assigned_addresses@ + t);
                        }
                    }
                },
                Err(e) => {
                    return Err(e);
                },
            }
        }
        proof {
            assert(assigned_addresses@ + Seq::<AssignedAddress>::empty() =~= assigned_addresses@);
        }
        Ok(AddressAssign { assigned_addresses })
    }

    /// Encode this ADDRESS_ASSIGN as a complete capsule (type + length + payload).
    pub fn encode(&self, buf: &mut BytesMut)
        requires
            self.encodable(),
            assigned_len(self.assigned_addresses@) <= VARINT_MAX,
            assigned_len(self.assigned_addresses@) <= usize::MAX,
            has_room(*old(buf), 9 + assigned_payload(self.assigned_addresses@).len()),
        ensures
            buffered(*final(buf)) == buffered(*old(buf)) + varint_bytes(CAPSULE_ADDRESS_ASSIGN)
                + varint_bytes(assigned_len(self.assigned_addresses@) as u64) + assigned_payload(
                self.assigned_addresses@,
            ),
    {
        let payload_len: usize = self.payload_len();
        proof {
            lemma_varint_bytes(CAPSULE_ADDRESS_ASSIGN);
            lemma_varint_bytes(payload_len as u64);
        }
        let _ = write_varint(buf, CAPSULE_ADDRESS_ASSIGN);
        let _ = write_varint(buf, payload_len as u64);
        self.encode_payload(buf);
    }

    /// Encode only the payload (no type/length envelope).
    pub fn encode_payload(&self, buf: &mut BytesMut)
        requires
            self.encodable(),
            has_room(*old(buf), assigned_payload(self.assigned_addresses@).len()),
        ensures
            buffered(*final(buf)) == buffered(*old(buf)) + assigned_payload(
                self.assigned_addresses@,
            ),
    {
        let ghost s = self.assigned_addresses@;
        let mut i: usize = 0;
        assert(s.take(0) =~= Seq::<AssignedAddress>::empty());
        assert(buffered(*buf) + assigned_payload(s.take(0)) =~= buffered(*buf));
        while i < self.assigned_addresses.len()
            invariant
                i <= s.len(),
                s == self.assigned_addresses@,
                self.encodable(),
                has_room(*old(buf), assigned_payload(s).len()),
                buffered(*buf) == buffered(*old(buf)) + assigned_payload(s.take(i as int)),
            decreases s.len() - i,
        {
            proof {
                lemma_assigned_payload_take(s, i as int);
            }
            encode_assigned_address(&self.assigned_addresses[i], buf);
            proof {
                assert(buffered(*buf) =~= buffered(*old(buf)) + assigned_payload(s.take(i + 1)));
            }
            i = i + 1;
        }
        assert(s.take(i as int) =~= s);
    }

    fn payload_len(&self) -> (len: usize)
        requires
            self.encodable(),
            assigned_len(self.assigned_addresses@) <= usize::MAX,
        ensures
            len == assigned_len(self.assigned_addresses@),
    {
        let ghost s = self.assigned_addresses@;
        let mut len: usize = 0;
        let mut i: usize = 0;
        assert(s.take(0) =~= Seq::<AssignedAddress>::empty());
        while i < self.assigned_addresses.len()
            invariant
                i <= s.len(),
                s == self.assigned_addresses@,
                self.encodable(),
                assigned_len(s) <= usize::MAX,
                len == assigned_len(s.take(i as int)),
            decreases s.len() - i,
        {
            proof {
                lemma_assigned_payload_take(s, i as int);
            }
            let a = &self.assigned_addresses[i];
            len = len + address_entry_len(a.request_id, a.ip_version);
            i = i + 1;
        }
        assert(s.take(i as int) =~= s);
        len
    }
}

/// The length an entry is announced with.
pub(crate) fn address_entry_len(request_id: u64, ip_version: u8) -> (len: usize)
    requires
        request_id <= VARINT_MAX,
    ensures
        len == entry_len(request_id, ip_version),
{
    let ip_len: usize = if ip_version == 4 {
        4
    } else {
        16
    };
    // request_id (VarInt) + ip_version (1) + ip_address (4 or 16) + prefix_length (1)
    let id_len: usize = match varint_len(request_id) {
        Ok(n) => n,
        Err(_) => 8,
    };
    id_len + 1 + ip_len + 1
}

/// An address and its length on the wire: the version, the octets in network
/// order, the length.
pub proof fn lemma_prefix_layout(ip: IpAddr, prefix_length: u8)
    ensures
        ({
            let b = prefix_bytes(ip.spec_version(), ip, prefix_length);
            match ip {
                IpAddr::V4(a) => {
                    &&& b.len() == 6
                    &&& b[0] == 4
                    &&& b[1] * 0x100_0000 + b[2] * 0x1_0000 + b[3] * 256 + b[4] == a.bits
                    &&& b[5] == prefix_length
                },
                IpAddr::V6(a) => {
                    &&& b.len() == 18
                    &&& b[0] == 6
                    &&& be_value(b.subrange(1, 17)) == a.bits
                    &&& b[17] == prefix_length
                },
            }
        }),
{
    let b = prefix_bytes(ip.spec_version(), ip, prefix_length);
    crate::bigendian::lemma_be_bytes_len(ip.spec_value(), 4);
    crate::bigendian::lemma_be_bytes_len(ip.spec_value(), 16);
    lemma_ip_roundtrip(ip, seq![prefix_length]);
    let rest = ip.spec_octets() + seq![prefix_length];
    match ip {
        IpAddr::V4(a) => {
            assert(b.skip(1) =~= rest);
            assert(rest[0] == b[1] && rest[1] == b[2] && rest[2] == b[3] && rest[3] == b[4]);
        },
        IpAddr::V6(a) => {
            assert(rest.take(16) =~= b.subrange(1, 17));
            lemma_be_value_fits(b.subrange(1, 17));
        },
    }
}

proof fn lemma_be_value_fits(s: Seq<u8>)
    requires
        s.len() == 16,
    ensures
        be_value(s) <= u128::MAX,
{
    crate::bigendian::lemma_be_value_bound(s);
    crate::bigendian::lemma_pow256_values();
}

/// An address and its length are read exactly if the version is 4 or 6, all
/// bytes are there, and the length is no longer than the address; what is read
/// is what was there.
pub proof fn lemma_prefix_read(s: Seq<u8>)
    ensures
        prefix_at(s) is Ok <==> s.len() > 0 && (s[0] == 4 && s.len() >= 6 && s[5] <= 32 || s[0] == 6
            && s.len() >= 18 && s[17] <= 128),
        prefix_at(s) matches Ok((ip_version, ip, prefix_length, n)) ==> {
            &&& ip_version == ip.spec_version()
            &&& n <= s.len()
            &&& s.take(n as int) == prefix_bytes(ip_version, ip, prefix_length)
        },
{
    if let Ok((ip_version, ip, prefix_length, n)) = prefix_at(s) {
        let b = prefix_bytes(ip_version, ip, prefix_length);
        if s[0] == 4 {
            let t = s.skip(1);
            assert(t.len() >= 4);
            lemma_be_value_4(t, 0);
            crate::bigendian::lemma_be_bytes_of_value(t.subrange(0, 4));
            crate::bigendian::lemma_be_value_bound(t.subrange(0, 4));
            crate::bigendian::lemma_pow256_values();
            assert(ip.spec_octets() == t.subrange(0, 4));
            assert(s.take(6) =~= b);
        } else {
            let t = s.skip(1);
            lemma_be_value_fits(t.take(16));
            crate::bigendian::lemma_be_bytes_of_value(t.take(16));
            assert(ip.spec_octets() == t.take(16));
            assert(s.take(18) =~= b);
        }
    }
}

/// An assigned address on the wire: its request number, then the address and
/// its length; the entries of a payload stand one after another.
pub proof fn lemma_assigned_layout(s: Seq<AssignedAddress>, a: AssignedAddress)
    ensures
        assigned_bytes(a) == varint_bytes(a.request_id) + prefix_bytes(
            a.ip_version,
            a.ip_address,
            a.prefix_length,
        ),
        assigned_payload(s.push(a)) == assigned_payload(s) + assigned_bytes(a),
        assigned_payload(Seq::empty()) == Seq::<u8>::empty(),
{
    assert(s.push(a).drop_last() =~= s);
}

/// A payload is read entry by entry: what one stands for comes first, then what
/// the rest stands for, and a fault anywhere in the rest is a fault of the
/// whole.
pub proof fn lemma_assigned_list_step(a: AssignedAddress, rest: Seq<u8>, s: Seq<u8>)
    requires
        a.wf(),
    ensures
        assigned_list(assigned_bytes(a) + rest) == match assigned_list(rest) {
            Ok(list) => Ok::<Seq<AssignedAddress>, DecodeError>(seq![a] + list),
            Err(e) => Err::<Seq<AssignedAddress>, DecodeError>(e),
        },
        assigned_list(Seq::empty()) == Ok::<Seq<AssignedAddress>, DecodeError>(Seq::empty()),
        s.len() > 0 && assigned_at(s) is Err ==> assigned_list(s) is Err,
{
    let b = assigned_bytes(a);
    lemma_assigned_roundtrip(a, rest);
    assert((b + rest).skip(b.len() as int) =~= rest);
}

} // verus!
