//! STUN (RFC 5389) Binding + NAT behaviour discovery (RFC 5780).
//!
//! Before punching, a peer can classify its NAT's *mapping behaviour* by probing
//! a dual-address STUN server from a fresh socket: is the external mapping the
//! same for every destination (endpoint-independent / cone), or does it change
//! per destination IP (address-dependent) or per destination IP *and* port
//! (address-and-port-dependent / symmetric)? Cone NATs punch with the basic
//! strategy; symmetric NATs do not, so knowing the class up front lets a peer
//! skip a futile punch and go straight to `--port-map` or the relay.

use vstd::prelude::*;
use vstd::slice::slice_subrange;

use crate::bigendian::{be16, be32, bytes16, bytes32, push_u16, push_u32, read_u16, read_u32};
use crate::crypto::random_bytes;
use crate::error::ProxyError;
use crate::net::{IpAddr, Ipv4Addr, SocketAddr};
use crate::session::auth::constant_time_eq;

verus! {

/// STUN magic cookie (RFC 5389 §6).
pub const MAGIC_COOKIE: u32 = 0x2112_A442;

pub const BINDING_REQUEST: u16 = 0x0001;

pub const BINDING_SUCCESS: u16 = 0x0101;

pub const ATTR_XOR_MAPPED_ADDRESS: u16 = 0x0020;

pub const ATTR_OTHER_ADDRESS: u16 = 0x802C;

pub const FAMILY_V4: u8 = 0x01;

/// How long one attempt of a transaction waits, in milliseconds.
pub const ATTEMPT_TIMEOUT_MS: u64 = 300;

/// How often a request is sent before the server counts as silent.
pub const ATTEMPTS: usize = 3;

/// A NAT's mapping behaviour (RFC 5780 §4.3).
#[derive(Debug, Clone, Copy, PartialEq, Eq, Structural)]
pub enum NatMapping {
    /// No NAT: the reflexive equals the local address.
    Open,
    /// One external mapping for every destination — a cone NAT. Punchable.
    EndpointIndependent,
    /// The mapping changes with the destination IP (restricted cone).
    AddressDependent,
    /// The mapping changes with destination IP *and* port — symmetric. Not
    /// punchable; use an explicit forward (`--port-map`) or the relay.
    AddressAndPortDependent,
}

impl NatMapping {
    /// Whether the basic outer-socket punch can traverse this NAT.
    pub fn is_punchable(self) -> (v: bool)
        ensures
            v == (self == NatMapping::Open || self == NatMapping::EndpointIndependent),
    {
        match self {
            NatMapping::Open => true,
            NatMapping::EndpointIndependent => true,
            _ => false,
        }
    }

    pub fn as_str(self) -> (s: &'static str)
        ensures
            s@ == match self {
                NatMapping::Open => "open (no NAT)"@,
                NatMapping::EndpointIndependent => "endpoint-independent (cone)"@,
                NatMapping::AddressDependent => "address-dependent (restricted cone)"@,
                NatMapping::AddressAndPortDependent => "address-and-port-dependent (symmetric)"@,
            },
    {
        match self {
            NatMapping::Open => "open (no NAT)",
            NatMapping::EndpointIndependent => "endpoint-independent (cone)",
            NatMapping::AddressDependent => "address-dependent (restricted cone)",
            NatMapping::AddressAndPortDependent => "address-and-port-dependent (symmetric)",
        }
    }
}

/// Where a classification stands.
#[derive(Debug, Clone, Copy, PartialEq, Eq, Structural)]
pub enum Detection {
    /// Test I: probe the primary address.
    First,
    /// Test II: probe the alternate address. `mapped` is what Test I showed.
    Second { mapped: SocketAddr, other: SocketAddr },
    /// Test III: probe the primary IP with the alternate port.
    Third { mapped: SocketAddr, other_port: u16 },
}

/// What an answer leads to.
#[derive(Debug)]
pub enum Progress {
    /// Another probe is needed.
    Continue(Detection),
    /// The mapping behaviour is known.
    Found(NatMapping),
}

impl Detection {
    /// What an answer that tells `mapped` and `other` brings about.
    pub open spec fn progressed(
        self,
        local: SocketAddr,
        mapped: SocketAddr,
        other: Option<SocketAddr>,
        r: Result<Progress, ProxyError>,
    ) -> bool {
        match self {
            Detection::First => if mapped == local {
                r matches Ok(Progress::Found(m)) && m == NatMapping::Open
            } else {
                match other {
                    Some(o) => r matches Ok(Progress::Continue(d)) && d == (Detection::Second {
                        mapped,
                        other: o,
                    }),
                    None => r matches Err(ProxyError::Quic(t)) && t@
                        == "STUN server does not support RFC 5780 (no OTHER-ADDRESS)"@,
                }
            },
            Detection::Second { mapped: first, other: o } => if mapped == first {
                r matches Ok(Progress::Found(m)) && m == NatMapping::EndpointIndependent
            } else {
                r matches Ok(Progress::Continue(d)) && d == (Detection::Third {
                    mapped: first,
                    other_port: o.port,
                })
            },
            Detection::Third { mapped: first, .. } => r matches Ok(Progress::Found(m)) && m
                == if mapped == first {
                NatMapping::AddressDependent
            } else {
                NatMapping::AddressAndPortDependent
            },
        }
    }

    /// Which address is asked next.
    pub open spec fn asks(self, primary: SocketAddr) -> SocketAddr {
        match self {
            Detection::First => primary,
            Detection::Second { other, .. } => other,
            Detection::Third { other_port, .. } => SocketAddr::at(primary.ip, other_port),
        }
    }

    /// The server address to probe now.
    pub fn target(&self, primary: SocketAddr) -> (a: SocketAddr)
        ensures
            a == self.asks(primary),
    {
        match *self {
            Detection::First => primary,
            Detection::Second { other, .. } => other,
            Detection::Third { other_port, .. } => SocketAddr::new(primary.ip, other_port),
        }
    }

    /// Take in the answer to a probe, per RFC 5780 §4.3:
    ///
    /// - **Test I** → the primary address; learn our reflexive and the
    ///   server's `OTHER-ADDRESS` (its alternate IP:port).
    /// - **Test II** → the alternate IP:port. Same reflexive ⇒
    ///   endpoint-independent.
    /// - **Test III** → the primary IP with the alternate port. Same reflexive
    ///   as Test I ⇒ address-dependent; otherwise address-and-port-dependent.
    pub fn answered(
        self,
        local: SocketAddr,
        mapped: SocketAddr,
        other: Option<SocketAddr>,
    ) -> (r: Result<Progress, ProxyError>)
        ensures
            self.progressed(local, mapped, other, r),
    {
        match self {
            Detection::First => {
                if mapped == local {
                    return Ok(Progress::Found(NatMapping::Open));
                }
                match other {
                    Some(other) => Ok(Progress::Continue(Detection::Second { mapped, other })),
                    // A plain STUN server (no OTHER-ADDRESS): we learned the
                    // reflexive but cannot classify.
                    None => Err(
                        ProxyError::Quic(
                            String::from_str(
                                "STUN server does not support RFC 5780 (no OTHER-ADDRESS)",
                            ),
                        ),
                    ),
                }
            },
            Detection::Second { mapped: first, other } => {
                if mapped == first {
                    Ok(Progress::Found(NatMapping::EndpointIndependent))
                } else {
                    Ok(
                        Progress::Continue(
                            Detection::Third { mapped: first, other_port: other.port },
                        ),
                    )
                }
            },
            Detection::Third { mapped: first, .. } => {
                if mapped == first {
                    Ok(Progress::Found(NatMapping::AddressDependent))
                } else {
                    Ok(Progress::Found(NatMapping::AddressAndPortDependent))
                }
            },
        }
    }
}

/// A Binding Request.
pub open spec fn request_bytes(txid: Seq<u8>) -> Seq<u8> {
    bytes16(BINDING_REQUEST) + bytes16(0) + bytes32(MAGIC_COOKIE) + txid
}

/// A 20-byte Binding Request with no attributes.
pub fn encode_binding_request(txid: &[u8; 12]) -> (b: Vec<u8>)
    ensures
        b@ == request_bytes(txid@),
        b@.len() == 20,
{
    let mut b: Vec<u8> = Vec::new();
    push_u16(&mut b, BINDING_REQUEST);
    push_u16(&mut b, 0);
    push_u32(&mut b, MAGIC_COOKIE);
    b.extend_from_slice(txid.as_slice());
    proof {
        assert(b@ =~= request_bytes(txid@));
    }
    b
}

/// The address that an attribute value holds (IPv4 only). When `xor`, the
/// port and address are XOR-folded with the magic cookie (RFC 5389 §15.2).
pub open spec fn addr_in(val: Seq<u8>, xor: bool) -> Option<SocketAddr> {
    if val.len() < 8 || val[1] != FAMILY_V4 {
        None
    } else {
        let port = be16(val, 2) as u16;
        let bits = be32(val, 4) as u32;
        Some(
            if xor {
                SocketAddr::at(
                    IpAddr::V4(Ipv4Addr { bits: bits ^ MAGIC_COOKIE }),
                    port ^ 0x2112,
                )
            } else {
                SocketAddr::at(IpAddr::V4(Ipv4Addr { bits }), port)
            },
        )
    }
}

/// Decode a (XOR-)MAPPED-ADDRESS / OTHER-ADDRESS value (IPv4 only). When `xor`,
/// the port and address are XOR-folded with the magic cookie (RFC 5389 §15.2).
pub fn decode_addr(val: &[u8], xor: bool) -> (r: Option<SocketAddr>)
    ensures
        r == addr_in(val@, xor),
{
    if val.len() < 8 || val[1] != FAMILY_V4 {
        return None;
    }
    let mut port: u16 = read_u16(val, 2);
    let mut bits: u32 = read_u32(val, 4);
    if xor {
        port = port ^ 0x2112;
        bits = bits ^ MAGIC_COOKIE;
    }
    Some(SocketAddr::new(IpAddr::V4(Ipv4Addr { bits }), port))
}

/// An attribute value for an address; empty for IPv6.
pub open spec fn addr_value(addr: SocketAddr, xor: bool) -> Seq<u8> {
    match addr.ip {
        IpAddr::V4(v4) => seq![0u8, FAMILY_V4] + if xor {
            bytes16(addr.port ^ 0x2112) + bytes32(v4.bits ^ MAGIC_COOKIE)
        } else {
            bytes16(addr.port) + bytes32(v4.bits)
        },
        IpAddr::V6(_) => Seq::empty(),
    }
}

/// Encode a (XOR-)MAPPED-ADDRESS / OTHER-ADDRESS value for `addr` (IPv4).
pub fn encode_addr(addr: SocketAddr, xor: bool) -> (v: Vec<u8>)
    ensures
        v@ == addr_value(addr, xor),
{
    let mut v: Vec<u8> = Vec::new();
    match addr.ip {
        IpAddr::V4(v4) => {
            // reserved
            v.push(0);
            v.push(FAMILY_V4);
            if xor {
                push_u16(&mut v, addr.port ^ 0x2112);
                push_u32(&mut v, v4.bits ^ MAGIC_COOKIE);
            } else {
                push_u16(&mut v, addr.port);
                push_u32(&mut v, v4.bits);
            }
        },
        IpAddr::V6(_) => {},
    }
    proof {
        assert(v@ =~= addr_value(addr, xor));
    }
    v
}

/// The port and the address field of an attribute value are read where they
/// were written.
proof fn lemma_fields_read(v: Seq<u8>, port: u16, bits: u32)
    requires
        v == seq![0u8, FAMILY_V4] + (bytes16(port) + bytes32(bits)),
    ensures
        v.len() == 8,
        v[1] == FAMILY_V4,
        be16(v, 2) == port,
        be32(v, 4) == bits,
{
}

/// An IPv4 address and port come back as they were written, plain or folded.
pub proof fn lemma_addr_roundtrip(addr: SocketAddr, xor: bool)
    requires
        addr.wf(),
        addr.ip is V4,
    ensures
        addr_in(addr_value(addr, xor), xor) == Some(addr),
        addr_value(addr, xor).len() == 8,
{
    let v = addr_value(addr, xor);
    let p = addr.port;
    let b = addr.ip->V4_0.bits;
    if xor {
        assert((p ^ 0x2112) ^ 0x2112 == p) by (bit_vector);
        assert((b ^ 0x2112_A442) ^ 0x2112_A442 == b) by (bit_vector);
        lemma_fields_read(v, p ^ 0x2112, b ^ MAGIC_COOKIE);
    } else {
        lemma_fields_read(v, p, b);
    }
}

/// A length rounded up to a multiple of four.
pub open spec fn padded(n: nat) -> nat {
    (n + 3) / 4 * 4
}

/// The two addresses that the attributes from `off` on name; later ones
/// replace earlier ones.
pub open spec fn attributes(
    buf: Seq<u8>,
    off: nat,
    end: nat,
    mapped: Option<SocketAddr>,
    other: Option<SocketAddr>,
) -> (Option<SocketAddr>, Option<SocketAddr>)
    decreases end + 0x1_0008 - off,
{
    if off + 4 > end {
        (mapped, other)
    } else {
        let atype = be16(buf, off as int);
        let alen = be16(buf, off as int + 2) as nat;
        if off + 4 + alen > buf.len() {
            (mapped, other)
        } else {
            let val = buf.subrange(off as int + 4, off as int + 4 + alen);
            let next = off + 4 + padded(alen);
            if atype == ATTR_XOR_MAPPED_ADDRESS {
                attributes(buf, next, end, addr_in(val, true), other)
            } else if atype == ATTR_OTHER_ADDRESS {
                attributes(buf, next, end, mapped, addr_in(val, false))
            } else {
                attributes(buf, next, end, mapped, other)
            }
        }
    }
}

/// What a Binding Success Response says, or what is wrong with it.
pub open spec fn response_in(buf: Seq<u8>, txid: Seq<u8>) -> Result<
    (SocketAddr, Option<SocketAddr>),
    Seq<char>,
> {
    if buf.len() < 20 {
        Err("short STUN response"@)
    } else if be16(buf, 0) != BINDING_SUCCESS || be32(buf, 4) != MAGIC_COOKIE || buf.subrange(8, 20)
        != txid {
        Err("not a matching STUN success response"@)
    } else if 20 + be16(buf, 2) > buf.len() {
        Err("STUN length past buffer"@)
    } else {
        match attributes(buf, 20, (20 + be16(buf, 2)) as nat, None, None) {
            (Some(mapped), other) => Ok((mapped, other)),
            (None, _) => Err("no XOR-MAPPED-ADDRESS"@),
        }
    }
}

fn quic_error(text: &str) -> (e: ProxyError)
    ensures
        e matches ProxyError::Quic(t) && t@ == text@,
{
    ProxyError::Quic(String::from_str(text))
}

/// Parse a Binding Success Response: verify the header/cookie/txid, then read
/// XOR-MAPPED-ADDRESS (required) and OTHER-ADDRESS (optional).
pub fn parse_binding_response(buf: &[u8], txid: &[u8; 12]) -> (r: Result<
    (SocketAddr, Option<SocketAddr>),
    ProxyError,
>)
    ensures
        match response_in(buf@, txid@) {
            Ok(v) => r matches Ok(got) && got == v,
            Err(text) => r matches Err(ProxyError::Quic(t)) && t@ == text,
        },
{
    if buf.len() < 20 {
        return Err(quic_error("short STUN response"));
    }
    let mtype: u16 = read_u16(buf, 0);
    let len: usize = read_u16(buf, 2) as usize;
    let cookie: u32 = read_u32(buf, 4);
    if mtype != BINDING_SUCCESS || cookie != MAGIC_COOKIE || !constant_time_eq(
        slice_subrange(buf, 8, 20),
        txid.as_slice(),
    ) {
        return Err(quic_error("not a matching STUN success response"));
    }
    if 20 + len > buf.len() {
        return Err(quic_error("STUN length past buffer"));
    }
    let end: usize = 20 + len;
    let mut off: usize = 20;
    let mut mapped: Option<SocketAddr> = None;
    let mut other: Option<SocketAddr> = None;
    while off + 4 <= end
        invariant_except_break
            end <= buf@.len(),
            end <= 20 + 65535,
            off <= end + 65536 + 8,
            attributes(buf@, 20, end as nat, None, None) == attributes(
                buf@,
                off as nat,
                end as nat,
                mapped,
                other,
            ),
        ensures
            attributes(buf@, 20, end as nat, None, None) == (mapped, other),
        decreases end + 65536 + 8 - off,
    {
        let atype: u16 = read_u16(buf, off);
        let alen: usize = read_u16(buf, off + 2) as usize;
        let val_start: usize = off + 4;
        if val_start + alen > buf.len() {
            break ;
        }
        let val = slice_subrange(buf, val_start, val_start + alen);
        if atype == ATTR_XOR_MAPPED_ADDRESS {
            mapped = decode_addr(val, true);
        } else if atype == ATTR_OTHER_ADDRESS {
            other = decode_addr(val, false);
        }
        // Attributes are padded to a 4-byte boundary.
        off = val_start + (alen + 3) / 4 * 4;
    }
    match mapped {
        Some(m) => Ok((m, other)),
        None => Err(quic_error("no XOR-MAPPED-ADDRESS")),
    }
}

/// The transaction id of a Binding Request.
pub open spec fn request_in(buf: Seq<u8>) -> Option<Seq<u8>> {
    if buf.len() < 20 || be16(buf, 0) != BINDING_REQUEST || be32(buf, 4) != MAGIC_COOKIE {
        None
    } else {
        Some(buf.subrange(8, 20))
    }
}

/// What came of waiting for a reply.
#[derive(Debug)]
pub enum Reply {
    /// A datagram.
    Datagram(Vec<u8>),
    /// The socket failed.
    Failed(ProxyError),
    /// Nothing in time.
    TimedOut,
}

/// What a Binding transaction does next.
#[derive(Debug, Clone, Copy, PartialEq, Eq, Structural)]
pub enum BindingStep {
    /// Send the request again; this many sends may follow that one.
    Resend { left: usize },
    /// The reflexive address, and the server's other address if it has one.
    Done { mapped: SocketAddr, other: Option<SocketAddr> },
}

/// What a Binding transaction does about a reply, or the lack of one, when
/// `left` more sends are allowed. The first datagram ends it.
pub fn binding_step(left: usize, reply: Reply, txid: &[u8; 12]) -> (r: Result<
    BindingStep,
    ProxyError,
>)
    ensures
        match reply {
            Reply::Datagram(b) => match response_in(b@, txid@) {
                Ok((mapped, other)) => r matches Ok(s) && s == (BindingStep::Done {
                    mapped,
                    other,
                }),
                Err(text) => r matches Err(ProxyError::Quic(t)) && t@ == text,
            },
            Reply::Failed(e) => r == Err::<BindingStep, ProxyError>(e),
            Reply::TimedOut => if left > 0 {
                r matches Ok(s) && s == (BindingStep::Resend { left: (left - 1) as usize })
            } else {
                r matches Err(ProxyError::Quic(t)) && t@ == "STUN server did not respond"@
            },
        },
{
    match reply {
        Reply::Datagram(b) => match parse_binding_response(b.as_slice(), txid) {
            Ok((mapped, other)) => Ok(BindingStep::Done { mapped, other }),
            Err(e) => Err(e),
        },
        Reply::Failed(e) => Err(e),
        Reply::TimedOut => if left > 0 {
            Ok(BindingStep::Resend { left: left - 1 })
        } else {
            Err(ProxyError::Quic(String::from_str("STUN server did not respond")))
        },
    }
}

/// If `buf` is a STUN Binding Request with the magic cookie, return its
/// transaction id.
pub fn parse_binding_request(buf: &[u8]) -> (r: Option<[u8; 12]>)
    ensures
        match request_in(buf@) {
            Some(id) => r matches Some(t) && t@ == id,
            None => r is None,
        },
{
    if buf.len() < 20 {
        return None;
    }
    if read_u16(buf, 0) != BINDING_REQUEST || read_u32(buf, 4) != MAGIC_COOKIE {
        return None;
    }
    let txid: [u8; 12] = twelve(slice_subrange(buf, 8, 20));
    Some(txid)
}

/// Twelve bytes as an array, in their order.
pub fn twelve(b: &[u8]) -> (t: [u8; 12])
    requires
        b@.len() == 12,
    ensures
        t@ == b@,
{
    let t: [u8; 12] = [b[0], b[1], b[2], b[3], b[4], b[5], b[6], b[7], b[8], b[9], b[10], b[11]];
    proof {
        assert(t@ =~= b@);
    }
    t
}

/// An attribute with its value. Values here need no padding.
pub open spec fn attribute_bytes(atype: u16, val: Seq<u8>) -> Seq<u8> {
    bytes16(atype) + bytes16(val.len() as u16) + val
}

/// The attributes of a Binding Success Response.
pub open spec fn response_body(mapped: SocketAddr, other: Option<SocketAddr>) -> Seq<u8> {
    attribute_bytes(ATTR_XOR_MAPPED_ADDRESS, addr_value(mapped, true)) + match other {
        Some(o) => attribute_bytes(ATTR_OTHER_ADDRESS, addr_value(o, false)),
        None => Seq::empty(),
    }
}

/// A Binding Success Response.
pub open spec fn response_bytes(
    txid: Seq<u8>,
    mapped: SocketAddr,
    other: Option<SocketAddr>,
) -> Seq<u8> {
    let body = response_body(mapped, other);
    bytes16(BINDING_SUCCESS) + bytes16(body.len() as u16) + bytes32(MAGIC_COOKIE) + txid + body
}

fn push_attr(body: &mut Vec<u8>, atype: u16, val: &Vec<u8>)
    requires
        val@.len() == 0 || val@.len() == 8,
    ensures
        final(body)@ == old(body)@ + attribute_bytes(atype, val@),
{
    push_u16(body, atype);
    push_u16(body, val.len() as u16);
    body.extend_from_slice(val.as_slice());
    proof {
        assert(body@ =~= old(body)@ + attribute_bytes(atype, val@));
    }
}

/// Build a Binding Success Response carrying XOR-MAPPED-ADDRESS (`mapped`) and,
/// when present, OTHER-ADDRESS (`other`).
pub fn encode_binding_response(
    txid: &[u8; 12],
    mapped: SocketAddr,
    other: Option<SocketAddr>,
) -> (msg: Vec<u8>)
    ensures
        msg@ == response_bytes(txid@, mapped, other),
{
    let mut body: Vec<u8> = Vec::new();
    let m = encode_addr(mapped, true);
    push_attr(&mut body, ATTR_XOR_MAPPED_ADDRESS, &m);
    match other {
        Some(o) => {
            let v = encode_addr(o, false);
            push_attr(&mut body, ATTR_OTHER_ADDRESS, &v);
        },
        None => {},
    }
    proof {
        assert(body@ =~= response_body(mapped, other));
    }
    let mut msg: Vec<u8> = Vec::new();
    push_u16(&mut msg, BINDING_SUCCESS);
    push_u16(&mut msg, body.len() as u16);
    push_u32(&mut msg, MAGIC_COOKIE);
    msg.extend_from_slice(txid.as_slice());
    msg.extend_from_slice(body.as_slice());
    proof {
        assert(msg@ =~= response_bytes(txid@, mapped, other));
    }
    msg
}

/// What a server socket answers to a datagram from `from`, if anything.
pub fn answer(buf: &[u8], from: SocketAddr, other: SocketAddr) -> (r: Option<Vec<u8>>)
    ensures
        match request_in(buf@) {
            Some(txid) => r matches Some(m) && m@ == response_bytes(txid, from, Some(other)),
            None => r is None,
        },
{
    match parse_binding_request(buf) {
        Some(txid) => Some(encode_binding_response(&txid, from, Some(other))),
        None => None,
    }
}

/// Where an RFC 5780 STUN server listens, each with the OTHER-ADDRESS that it
/// gives out there: all four `(IP, port)` combinations of its two addresses,
/// so a client's three mapping tests each reach a listener, and the
/// OTHER-ADDRESS is the diagonally-opposite IP:port.
pub fn listeners(primary: SocketAddr, alternate: SocketAddr) -> (v: Vec<(SocketAddr, SocketAddr)>)
    ensures
        v@ == diagonals(primary, alternate),
{
    let mut v: Vec<(SocketAddr, SocketAddr)> = Vec::new();
    let ab = SocketAddr::new(primary.ip, alternate.port);
    let ba = SocketAddr::new(alternate.ip, primary.port);
    v.push((primary, alternate));
    v.push((ab, ba));
    v.push((ba, ab));
    v.push((alternate, primary));
    v
}

/// The four combinations of two addresses, each with its opposite.
pub open spec fn diagonals(primary: SocketAddr, alternate: SocketAddr) -> Seq<
    (SocketAddr, SocketAddr),
> {
    let ab = SocketAddr::at(primary.ip, alternate.port);
    let ba = SocketAddr::at(alternate.ip, primary.port);
    seq![(primary, alternate), (ab, ba), (ba, ab), (alternate, primary)]
}

/// A listener's opposite has the other IP and the other port, and is a
/// listener too.
pub proof fn lemma_diagonals(primary: SocketAddr, alternate: SocketAddr, i: int)
    requires
        primary.ip != alternate.ip,
        primary.port != alternate.port,
        0 <= i < 4,
    ensures
        ({
            let (listen, other) = diagonals(primary, alternate)[i];
            &&& listen.ip != other.ip
            &&& listen.port != other.port
            &&& diagonals(primary, alternate)[3 - i] == (other, listen)
        }),
{
}

/// A random 96-bit transaction id.
pub fn new_txid() -> [u8; 12] {
    let v = random_bytes(12);
    twelve(v.as_slice())
}

/// A client reads out of a response what the server put into it.
pub proof fn lemma_response_roundtrip(
    txid: Seq<u8>,
    mapped: SocketAddr,
    other: Option<SocketAddr>,
)
    requires
        txid.len() == 12,
        mapped.wf(),
        mapped.ip is V4,
        other matches Some(o) ==> o.wf() && o.ip is V4,
    ensures
        response_in(response_bytes(txid, mapped, other), txid) == Ok::<
            (SocketAddr, Option<SocketAddr>),
            Seq<char>,
        >((mapped, other)),
{
    let m = addr_value(mapped, true);
    let body = response_body(mapped, other);
    let buf = response_bytes(txid, mapped, other);
    lemma_addr_roundtrip(mapped, true);
    let end = 20 + body.len();
    assert(be16(buf, 0) == BINDING_SUCCESS);
    assert(be16(buf, 2) == body.len());
    assert(be32(buf, 4) == MAGIC_COOKIE);
    assert(buf.subrange(8, 20) =~= txid);
    assert(be16(buf, 20) == ATTR_XOR_MAPPED_ADDRESS);
    assert(be16(buf, 22) == 8);
    assert(buf.subrange(24, 32) =~= m);
    assert(attributes(buf, 20, end, None, None) == attributes(buf, 32, end, Some(mapped), None));
    match other {
        Some(o) => {
            lemma_addr_roundtrip(o, false);
            let v = addr_value(o, false);
            assert(be16(buf, 32) == ATTR_OTHER_ADDRESS);
            assert(be16(buf, 34) == 8);
            assert(buf.subrange(36, 44) =~= v);
            assert(attributes(buf, 32, end, Some(mapped), None) == attributes(
                buf,
                44,
                end,
                Some(mapped),
                Some(o),
            ));
        },
        None => {},
    }
}

/// A server recognises every request that a client makes, and its id.
pub proof fn lemma_request_roundtrip(txid: Seq<u8>)
    requires
        txid.len() == 12,
    ensures
        request_in(request_bytes(txid)) == Some(txid),
{
    let b = request_bytes(txid);
    assert(be16(b, 0) == BINDING_REQUEST);
    assert(be32(b, 4) == MAGIC_COOKIE);
    assert(b.subrange(8, 20) =~= txid);
}

/// A request on the wire: the type of a binding request, no length, the magic
/// cookie, and the transaction.
pub proof fn lemma_request_layout(txid: Seq<u8>)
    requires
        txid.len() == 12,
    ensures
        request_bytes(txid) == seq![0u8, 1, 0, 0, 0x21, 0x12, 0xa4, 0x42] + txid,
{
    assert(request_bytes(txid) =~= seq![0u8, 1, 0, 0, 0x21, 0x12, 0xa4, 0x42] + txid);
}

/// A message is taken for a request exactly if it has a header with the type
/// of a binding request and the magic cookie; its transaction is the last
/// twelve bytes of the header.
pub proof fn lemma_request_known(buf: Seq<u8>)
    ensures
        request_in(buf) is Some <==> buf.len() >= 20 && buf[0] == 0 && buf[1] == 1 && buf[4] == 0x21
            && buf[5] == 0x12 && buf[6] == 0xa4 && buf[7] == 0x42,
        request_in(buf) matches Some(id) ==> id == buf.subrange(8, 20),
{
}

/// A response on the wire: the type of a binding success, the length of what
/// follows the header, the magic cookie, the transaction, the mapped address
/// folded with the cookie, and behind it the other address as it is.
pub proof fn lemma_response_layout(txid: Seq<u8>, mapped: SocketAddr, other: Option<SocketAddr>)
    requires
        txid.len() == 12,
        mapped.ip is V4,
        other matches Some(o) ==> o.ip is V4,
    ensures
        ({
            let b = response_bytes(txid, mapped, other);
            &&& b.take(8) == seq![
                1u8,
                1,
                0,
                if other is Some {
                    24
                } else {
                    12
                },
                0x21,
                0x12,
                0xa4,
                0x42,
            ]
            &&& b.subrange(8, 20) == txid
            &&& b.subrange(20, 26) == seq![0u8, 0x20, 0, 8, 0, 1]
            &&& b[26] * 256 + b[27] == mapped.port ^ 0x2112
            &&& b[28] * 0x100_0000 + b[29] * 0x1_0000 + b[30] * 256 + b[31] == mapped.ip->V4_0.bits
                ^ 0x2112_a442
            &&& b.len() == if other is Some {
                44int
            } else {
                32
            }
            &&& other matches Some(o) ==> {
                &&& b.subrange(32, 38) == seq![0x80u8, 0x2c, 0, 8, 0, 1]
                &&& b[38] * 256 + b[39] == o.port
                &&& b[40] * 0x100_0000 + b[41] * 0x1_0000 + b[42] * 256 + b[43] == o.ip->V4_0.bits
            }
        }),
{
    let b = response_bytes(txid, mapped, other);
    let bits = mapped.ip->V4_0.bits ^ MAGIC_COOKIE;
    let port = mapped.port ^ 0x2112;
    let x = bytes16(port) + bytes32(bits);
    assert(addr_value(mapped, true) =~= seq![0u8, 1] + x);
    assert(addr_value(mapped, true).len() == 8);
    if let Some(o) = other {
        let y = bytes16(o.port) + bytes32(o.ip->V4_0.bits);
        assert(addr_value(o, false) =~= seq![0u8, 1] + y);
        assert(addr_value(o, false).len() == 8);
        assert(response_body(mapped, other).len() == 24);
        assert(b.subrange(32, 38) =~= seq![0x80u8, 0x2c, 0, 8, 0, 1]);
        assert(b[38] == y[0] && b[39] == y[1] && b[40] == y[2] && b[41] == y[3] && b[42] == y[4]
            && b[43] == y[5]);
    } else {
        assert(response_body(mapped, other).len() == 12);
    }
    assert(b.take(8) =~= seq![
        1u8,
        1,
        0,
        if other is Some {
            24
        } else {
            12
        },
        0x21,
        0x12,
        0xa4,
        0x42,
    ]);
    assert(b.subrange(8, 20) =~= txid);
    assert(b.subrange(20, 26) =~= seq![0u8, 0x20, 0, 8, 0, 1]);
    assert(b[26] == x[0] && b[27] == x[1] && b[28] == x[2] && b[29] == x[3] && b[30] == x[4]
        && b[31] == x[5]);
}

/// A response that is accepted is a binding success with the magic cookie, to
/// the very transaction that was asked, and all of it is there.
pub proof fn lemma_response_checked(buf: Seq<u8>, txid: Seq<u8>)
    ensures
        response_in(buf, txid) is Ok ==> {
            &&& buf.len() >= 20
            &&& buf[0] == 1 && buf[1] == 1
            &&& buf[4] == 0x21 && buf[5] == 0x12 && buf[6] == 0xa4 && buf[7] == 0x42
            &&& buf.subrange(8, 20) == txid
            &&& 20 + buf[2] * 256 + buf[3] <= buf.len()
        },
{
}

/// An attribute that is neither address is passed over, with the bytes that
/// fill it up to a multiple of four.
pub proof fn lemma_attribute_skipped(
    buf: Seq<u8>,
    off: nat,
    end: nat,
    fill: nat,
    mapped: Option<SocketAddr>,
    other: Option<SocketAddr>,
)
    requires
        off + 4 <= end <= buf.len(),
        buf[off as int] * 256 + buf[off + 1int] != 0x20,
        buf[off as int] * 256 + buf[off + 1int] != 0x802c,
        off + 4 + buf[off + 2int] * 256 + buf[off + 3int] <= buf.len(),
        fill < 4,
        (buf[off + 2int] * 256 + buf[off + 3int] + fill) % 4 == 0,
    ensures
        attributes(buf, off, end, mapped, other) == attributes(
            buf,
            (off + 4 + buf[off + 2int] * 256 + buf[off + 3int] + fill) as nat,
            end,
            mapped,
            other,
        ),
{
}

/// How a NAT is told: the server is asked at its own address, then at its
/// other one, then at its own host with the other port. An answer that is the
/// local address means no NAT; the first answer again at the second address
/// means that the mapping does not depend on where packets go; again only at
/// the third, that it depends on the host; never again, that it depends on the
/// port too. A server without another address cannot tell.
pub proof fn lemma_nat_told(
    local: SocketAddr,
    primary: SocketAddr,
    other: SocketAddr,
    first: SocketAddr,
    second: SocketAddr,
    third: SocketAddr,
    o2: Option<SocketAddr>,
    o3: Option<SocketAddr>,
    r1: Result<Progress, ProxyError>,
    alone: Result<Progress, ProxyError>,
    r2: Result<Progress, ProxyError>,
    r3: Result<Progress, ProxyError>,
)
    requires
        Detection::First.progressed(local, first, Some(other), r1),
        Detection::First.progressed(local, first, None, alone),
        r1 matches Ok(Progress::Continue(d)) ==> d.progressed(local, second, o2, r2),
        r2 matches Ok(Progress::Continue(d)) ==> d.progressed(local, third, o3, r3),
    ensures
        Detection::First.asks(primary) == primary,
        first == local ==> r1 == Ok::<Progress, ProxyError>(Progress::Found(NatMapping::Open))
            && alone == r1,
        first != local ==> alone is Err,
        first != local ==> (r1 matches Ok(Progress::Continue(d)) && d.asks(primary) == other),
        first != local && second == first ==> r2 == Ok::<Progress, ProxyError>(
            Progress::Found(NatMapping::EndpointIndependent),
        ),
        first != local && second != first ==> (r2 matches Ok(Progress::Continue(d)) && d.asks(
            primary,
        ) == SocketAddr::at(primary.ip, other.port)),
        first != local && second != first && third == first ==> r3 == Ok::<Progress, ProxyError>(
            Progress::Found(NatMapping::AddressDependent),
        ),
        first != local && second != first && third != first ==> r3 == Ok::<Progress, ProxyError>(
            Progress::Found(NatMapping::AddressAndPortDependent),
        ),
{
}

/// An address is read exactly if it is whole and of IPv4; its port and its
/// number are as they stand, or folded with the cookie.
pub proof fn lemma_addr_read(val: Seq<u8>, xor: bool)
    ensures
        addr_in(val, xor) is Some <==> val.len() >= 8 && val[1] == 1,
        addr_in(val, xor) matches Some(a) ==> {
            let port = (val[2] * 256 + val[3]) as u16;
            let bits = (val[4] * 0x100_0000 + val[5] * 0x1_0000 + val[6] * 256 + val[7]) as u32;
            &&& a.port == if xor {
                port ^ 0x2112
            } else {
                port
            }
            &&& a.ip == IpAddr::V4(
                Ipv4Addr {
                    bits: if xor {
                        bits ^ 0x2112_a442
                    } else {
                        bits
                    },
                },
            )
        },
{
}

/// Of an address that is told more than once, the last counts; reading ends
/// where no attribute fits any more.
pub proof fn lemma_attribute_taken(
    buf: Seq<u8>,
    off: nat,
    end: nat,
    fill: nat,
    mapped: Option<SocketAddr>,
    other: Option<SocketAddr>,
)
    requires
        end <= buf.len(),
        off + 4 <= end ==> fill < 4 && (buf[off + 2int] * 256 + buf[off + 3int] + fill) % 4 == 0,
    ensures
        off + 4 > end ==> attributes(buf, off, end, mapped, other) == (mapped, other),
        off + 4 <= end ==> {
            let kind = buf[off as int] * 256 + buf[off + 1int];
            let len = buf[off + 2int] * 256 + buf[off + 3int];
            let val = buf.subrange(off + 4int, off + 4int + len);
            let next = (off + 4 + len + fill) as nat;
            &&& off + 4 + len > buf.len() ==> attributes(buf, off, end, mapped, other) == (
                mapped,
                other,
            )
            &&& off + 4 + len <= buf.len() && kind == 0x20 ==> attributes(
                buf,
                off,
                end,
                mapped,
                other,
            ) == attributes(buf, next, end, addr_in(val, true), other)
            &&& off + 4 + len <= buf.len() && kind == 0x802c ==> attributes(
                buf,
                off,
                end,
                mapped,
                other,
            ) == attributes(buf, next, end, mapped, addr_in(val, false))
        },
{
}

} // verus!
