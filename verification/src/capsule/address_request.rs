//! ADDRESS_REQUEST (RFC 9484 §4.7.2).

use bytes::BytesMut;
use vstd::prelude::*;

use crate::buf::{buffered, has_room};
use crate::capsule::address_assign::{
    address_entry_len, decode_prefix, encode_prefix, entry_len, entry_wf, lemma_ip_roundtrip,
    lemma_prefix_roundtrip, prefix_at, prefix_bytes,
};
use crate::capsule::codec::{
    lemma_varint_bytes, lemma_varint_roundtrip, read_varint, varint_at, varint_bytes, write_varint,
    VARINT_MAX,
};
use crate::capsule::{AddressRequest, RequestedAddress, CAPSULE_ADDRESS_REQUEST};
use crate::error::DecodeError;

verus! {

/// The entry at the front of `s`, and its length. Request id 0 is reserved
/// for unprompted assignments, so a request may not carry it.
pub open spec fn requested_at(s: Seq<u8>) -> Result<(RequestedAddress, nat), DecodeError> {
    match varint_at(s) {
        None => Err(DecodeError::Underflow),
        Some((request_id, n)) => if request_id == 0 {
            Err(DecodeError::InvalidVarInt)
        } else {
            match prefix_at(s.skip(n as int)) {
                Err(e) => Err(e),
                Ok((ip_version, ip_address, prefix_length, m)) => Ok(
                    (RequestedAddress { request_id, ip_version, ip_address, prefix_length }, n + m),
                ),
            }
        },
    }
}

/// All entries of a payload, or the first error among them.
pub open spec fn requested_list(s: Seq<u8>) -> Result<Seq<RequestedAddress>, DecodeError>
    decreases s.len(),
{
    if s.len() == 0 {
        Ok(Seq::empty())
    } else {
        match requested_at(s) {
            Err(e) => Err(e),
            Ok((a, n)) => if 1 <= n <= s.len() {
                match requested_list(s.skip(n as int)) {
                    Err(e) => Err(e),
                    Ok(rest) => Ok(seq![a] + rest),
                }
            } else {
                Err(DecodeError::Underflow)
            },
        }
    }
}

/// The entries of a request payload; a request without entries is refused.
pub open spec fn request_of(s: Seq<u8>) -> Result<Seq<RequestedAddress>, DecodeError> {
    match requested_list(s) {
        Err(e) => Err(e),
        Ok(list) => if list.len() == 0 {
            Err(DecodeError::Underflow)
        } else {
            Ok(list)
        },
    }
}

/// The encoding of one entry.
pub open spec fn requested_bytes(a: RequestedAddress) -> Seq<u8> {
    varint_bytes(a.request_id) + prefix_bytes(a.ip_version, a.ip_address, a.prefix_length)
}

/// The encoding of a list of entries.
pub open spec fn requested_payload(s: Seq<RequestedAddress>) -> Seq<u8>
    decreases s.len(),
{
    if s.len() == 0 {
        Seq::empty()
    } else {
        requested_payload(s.drop_last()) + requested_bytes(s.last())
    }
}

/// The payload length that a capsule announces.
pub open spec fn requested_len(s: Seq<RequestedAddress>) -> nat
    decreases s.len(),
{
    if s.len() == 0 {
        0
    } else {
        requested_len(s.drop_last()) + entry_len(s.last().request_id, s.last().ip_version)
    }
}

impl RequestedAddress {
    /// A request that the wire format can carry.
    pub open spec fn wf(self) -> bool {
        &&& self.request_id != 0
        &&& entry_wf(self.request_id, self.ip_version, self.ip_address, self.prefix_length)
    }
}

/// Reading an entry back.
pub proof fn lemma_requested_roundtrip(a: RequestedAddress, rest: Seq<u8>)
    requires
        a.wf(),
    ensures
        requested_at(requested_bytes(a) + rest) == Ok::<(RequestedAddress, nat), DecodeError>(
            (a, requested_bytes(a).len()),
        ),
        requested_bytes(a).len() == entry_len(a.request_id, a.ip_version),
{
    let tail = prefix_bytes(a.ip_version, a.ip_address, a.prefix_length);
    let s = requested_bytes(a) + rest;
    let id = varint_bytes(a.request_id);
    lemma_varint_roundtrip(a.request_id, tail + rest);
    lemma_varint_bytes(a.request_id);
    assert(s =~= id + (tail + rest));
    assert(s.skip(id.len() as int) =~= tail + rest);
    lemma_prefix_roundtrip(a.ip_address, a.prefix_length, rest);
    lemma_ip_roundtrip(a.ip_address, rest);
}

/// The payload of a list splits off its first entry.
proof fn lemma_requested_payload_front(s: Seq<RequestedAddress>)
    requires
        s.len() > 0,
    ensures
        requested_payload(s) == requested_bytes(s[0]) + requested_payload(s.skip(1)),
    decreases s.len(),
{
    if s.len() == 1 {
        assert(s.skip(1) =~= Seq::<RequestedAddress>::empty());
        assert(s.drop_last() =~= Seq::<RequestedAddress>::empty());
    } else {
        lemma_requested_payload_front(s.drop_last());
        assert(s.drop_last().skip(1) =~= s.skip(1).drop_last());
    }
    assert(requested_payload(s) =~= requested_bytes(s[0]) + requested_payload(s.skip(1)));
}

proof fn lemma_requested_len(s: Seq<RequestedAddress>)
    requires
        forall|i: int| 0 <= i < s.len() ==> (#[trigger] s[i]).wf(),
    ensures
        requested_payload(s).len() == requested_len(s),
    decreases s.len(),
{
    if s.len() > 0 {
        lemma_requested_len(s.drop_last());
        lemma_requested_roundtrip(s.last(), Seq::empty());
    }
}

/// The payload of carriable entries decodes to those entries, and is as long
/// as the capsule announces.
pub proof fn lemma_requested_list_roundtrip(s: Seq<RequestedAddress>)
    requires
        forall|i: int| 0 <= i < s.len() ==> (#[trigger] s[i]).wf(),
    ensures
        requested_list(requested_payload(s)) == Ok::<Seq<RequestedAddress>, DecodeError>(s),
        requested_payload(s).len() == requested_len(s),
    decreases s.len(),
{
    if s.len() > 0 {
        lemma_requested_len(s);
        lemma_requested_payload_front(s);
        lemma_requested_list_roundtrip(s.skip(1));
        let rest = requested_payload(s.skip(1));
        lemma_requested_roundtrip(s[0], rest);
        let n = requested_bytes(s[0]).len();
        assert(requested_payload(s).skip(n as int) =~= rest);
        assert(seq![s[0]] + s.skip(1) =~= s);
    } else {
        assert(s =~= Seq::<RequestedAddress>::empty());
    }
}

fn decode_requested_address(buf: &mut &[u8]) -> (r: Result<RequestedAddress, DecodeError>)
    ensures
        match requested_at(old(buf)@) {
            Ok((a, n)) => r == Ok::<RequestedAddress, DecodeError>(a) && 1 <= n <= old(buf)@.len()
                && final(buf)@ == old(buf)@.skip(n as int),
            Err(e) => r == Err::<RequestedAddress, DecodeError>(e),
        },
{
    let ghost s = buf@;
    let request_id: u64 = match read_varint(buf) {
        Ok(v) => v,
        Err(e) => {
            return Err(e);
        },
    };
    if request_id == 0 {
        return Err(DecodeError::InvalidVarInt);
    }
    let ghost n = varint_at(s).unwrap().1;
    match decode_prefix(buf) {
        Ok((ip_version, ip_address, prefix_length)) => {
            proof {
                let m = prefix_at(s.skip(n as int))->Ok_0.3;
                assert(buf@ =~= s.skip((n + m) as int));
            }
            Ok(RequestedAddress { request_id, ip_version, ip_address, prefix_length })
        },
        Err(e) => Err(e),
    }
}

fn encode_requested_address(addr: &RequestedAddress, buf: &mut BytesMut)
    requires
        addr.request_id <= VARINT_MAX,
        has_room(*old(buf), requested_bytes(*addr).len()),
    ensures
        buffered(*final(buf)) == buffered(*old(buf)) + requested_bytes(*addr),
{
    proof {
        lemma_varint_bytes(addr.request_id);
    }
    let _ = write_varint(buf, addr.request_id);
    encode_prefix(addr.ip_version, &addr.ip_address, addr.prefix_length, buf);
    proof {
        assert(buffered(*buf) =~= buffered(*old(buf)) + requested_bytes(*addr));
    }
}

/// The payload of a prefix of a list is no longer than that of the list.
proof fn lemma_requested_payload_take(s: Seq<RequestedAddress>, i: int)
    requires
        0 <= i < s.len(),
    ensures
        requested_payload(s.take(i + 1)) == requested_payload(s.take(i)) + requested_bytes(s[i]),
        requested_len(s.take(i + 1)) == requested_len(s.take(i)) + entry_len(
            s[i].request_id,
            s[i].ip_version,
        ),
        requested_payload(s.take(i + 1)).len() <= requested_payload(s).len(),
        requested_len(s.take(i + 1)) <= requested_len(s),
    decreases s.len() - i,
{
    assert(s.take(i + 1).drop_last() =~= s.take(i));
    if i + 1 < s.len() {
        lemma_requested_payload_take(s, i + 1);
        assert(s.take(i + 2).drop_last() =~= s.take(i + 1));
    } else {
        assert(s.take(i + 1) =~= s);
    }
}

impl AddressRequest {
    /// Every request id can be written as a variable-length integer.
    pub open spec fn encodable(self) -> bool {
        forall|i: int|
            0 <= i < self.requested_addresses@.len() ==> (
            #[trigger] self.requested_addresses@[i]).request_id <= VARINT_MAX
    }

    /// Decode an ADDRESS_REQUEST capsule payload (without the type/length envelope).
    pub fn decode(payload: &[u8]) -> (r: Result<Self, DecodeError>)
        ensures
            match request_of(payload@) {
                Ok(list) => r is Ok && r->Ok_0.requested_addresses@ == list,
                Err(e) => r == Err::<Self, DecodeError>(e),
            },
    {
        let mut requested_addresses: Vec<RequestedAddress> = Vec::new();
        let mut rest: &[u8] = payload;
        proof {
            if let Ok(t) = requested_list(rest@) {
                assert(requested_addresses@ + t =~= t);
            }
        }
        while rest.len() > 0
            invariant
                match requested_list(rest@) {
                    Ok(t) => Ok::<Seq<RequestedAddress>, DecodeError>(requested_addresses@ + t),
                    Err(e) => Err(e),
                } == requested_list(payload@),
            decreases rest@.len(),
        {
            let ghost done = requested_addresses@;
            match decode_requested_address(&mut rest) {
                Ok(addr) => {
                    requested_addresses.push(addr);
                    proof {
                        if let Ok(t) = requested_list(rest@) {
                            assert(done + (seq![addr] + t) =~= requested_addresses@ + t);
                        }
                    }
                },
                Err(e) => {
                    return Err(e);
                },
            }
        }
        proof {
            assert(requested_addresses@ + Seq::<RequestedAddress>::empty()
                =~= requested_addresses@);
        }
        if requested_addresses.len() == 0 {
            return Err(DecodeError::Underflow);
        }
        Ok(AddressRequest { requested_addresses })
    }

    /// Encode this ADDRESS_REQUEST as a complete capsule (type + length + payload).
    pub fn encode(&self, buf: &mut BytesMut)
        requires
            self.encodable(),
            requested_len(self.requested_addresses@) <= VARINT_MAX,
            requested_len(self.requested_addresses@) <= usize::MAX,
            has_room(*old(buf), 9 + requested_payload(self.requested_addresses@).len()),
        ensures
            buffered(*final(buf)) == buffered(*old(buf)) + varint_bytes(CAPSULE_ADDRESS_REQUEST)
                + varint_bytes(requested_len(self.requested_addresses@) as u64) + requested_payload(
                self.requested_addresses@,
            ),
    {
        let payload_len: usize = self.payload_len();
        proof {
            lemma_varint_bytes(CAPSULE_ADDRESS_REQUEST);
            lemma_varint_bytes(payload_len as u64);
        }
        let _ = write_varint(buf, CAPSULE_ADDRESS_REQUEST);
        let _ = write_varint(buf, payload_len as u64);
        self.encode_payload(buf);
    }

    /// Encode only the payload (no type/length envelope).
    pub fn encode_payload(&self, buf: &mut BytesMut)
        requires
            self.encodable(),
            has_room(*old(buf), requested_payload(self.requested_addresses@).len()),
        ensures
            buffered(*final(buf)) == buffered(*old(buf)) + requested_payload(
                self.requested_addresses@,
            ),
    {
        let ghost s = self.requested_addresses@;
        let mut i: usize = 0;
        assert(s.take(0) =~= Seq::<RequestedAddress>::empty());
        assert(buffered(*buf) + requested_payload(s.take(0)) =~= buffered(*buf));
        while i < self.requested_addresses.len()
            invariant
                i <= s.len(),
                s == self.requested_addresses@,
                self.encodable(),
                has_room(*old(buf), requested_payload(s).len()),
                buffered(*buf) == buffered(*old(buf)) + requested_payload(s.take(i as int)),
            decreases s.len() - i,
        {
            proof {
                lemma_requested_payload_take(s, i as int);
            }
            encode_requested_address(&self.requested_addresses[i], buf);
            proof {
                assert(buffered(*buf) =~= buffered(*old(buf)) + requested_payload(s.take(i + 1)));
            }
            i = i + 1;
        }
        assert(s.take(i as int) =~= s);
    }

    fn payload_len(&self) -> (len: usize)
        requires
            self.encodable(),
            requested_len(self.requested_addresses@) <= usize::MAX,
        ensures
            len == requested_len(self.requested_addresses@),
    {
        let ghost s = self.requested_addresses@;
        let mut len: usize = 0;
        let mut i: usize = 0;
        assert(s.take(0) =~= Seq::<RequestedAddress>::empty());
        while i < self.requested_addresses.len()
            invariant
                i <= s.len(),
                s == self.requested_addresses@,
                self.encodable(),
                requested_len(s) <= usize::MAX,
                len == requested_len(s.take(i as int)),
            decreases s.len() - i,
        {
            proof {
                lemma_requested_payload_take(s, i as int);
            }
            let a = &self.requested_addresses[i];
            len = len + address_entry_len(a.request_id, a.ip_version);
            i = i + 1;
        }
        assert(s.take(i as int) =~= s);
        len
    }
}

/// A requested address on the wire: its request number, then the address and
/// its length; the entries of a payload stand one after another.
pub proof fn lemma_requested_layout(s: Seq<RequestedAddress>, a: RequestedAddress)
    ensures
        requested_bytes(a) == varint_bytes(a.request_id) + prefix_bytes(
            a.ip_version,
            a.ip_address,
            a.prefix_length,
        ),
        requested_payload(s.push(a)) == requested_payload(s) + requested_bytes(a),
        requested_payload(Seq::empty()) == Seq::<u8>::empty(),
{
    assert(s.push(a).drop_last() =~= s);
}

/// A request without entries, or with an entry of number zero at its front, is
/// refused.
pub proof fn lemma_request_refused(s: Seq<u8>)
    ensures
        s.len() == 0 ==> request_of(s) is Err,
        s.len() > 0 && s[0] == 0 ==> request_of(s) is Err,
        request_of(s) matches Ok(list) ==> list.len() > 0 && list[0].request_id != 0,
{
    crate::capsule::codec::lemma_varint_read(s);
    if let Ok(list) = request_of(s) {
        if let Ok((a, n)) = requested_at(s) {
            if let Ok(rest) = requested_list(s.skip(n as int)) {
                assert((seq![a] + rest)[0] == a);
            }
        }
    }
}

/// A payload is read entry by entry: what one stands for comes first, then what
/// the rest stands for, and a fault anywhere in the rest is a fault of the
/// whole.
pub proof fn lemma_requested_list_step(a: RequestedAddress, rest: Seq<u8>, s: Seq<u8>)
    requires
        a.wf(),
    ensures
        requested_list(requested_bytes(a) + rest) == match requested_list(rest) {
            Ok(list) => Ok::<Seq<RequestedAddress>, DecodeError>(seq![a] + list),
            Err(e) => Err::<Seq<RequestedAddress>, DecodeError>(e),
        },
        requested_list(Seq::empty()) == Ok::<Seq<RequestedAddress>, DecodeError>(Seq::empty()),
        s.len() > 0 && requested_at(s) is Err ==> requested_list(s) is Err,
{
    let b = requested_bytes(a);
    lemma_requested_roundtrip(a, rest);
    assert((b + rest).skip(b.len() as int) =~= rest);
}

} // verus!
