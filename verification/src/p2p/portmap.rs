//! Explicit port mapping via PCP (RFC 6887) and NAT-PMP (RFC 6886).
//!
//! Symmetric NATs defeat hole punching, but most consumer routers can be *asked*
//! to install a port forward. A peer requests a UDP mapping for its punch
//! socket's internal port; the router replies with an external (IP, port) that
//! it forwards inbound to that socket. That mapped address is then a candidate
//! the peer advertises — reachable regardless of the NAT's mapping behaviour,
//! because the forward is explicit.
//!
//! Both protocols live on UDP port 5351 at the default gateway. PCP is the
//! modern one and is tried first; NAT-PMP is the older fallback that many
//! routers (and Apple's) still speak.

use vstd::prelude::*;
use vstd::slice::slice_subrange;

use crate::bigendian::{be16, be32, bytes16, bytes32, push_u16, push_u32, read_u16, read_u32};
use crate::crypto::random_bytes;
use crate::error::ProxyError;
use crate::net::{IpAddr, Ipv4Addr, SocketAddr};
use crate::p2p::stun::{twelve, Reply};
use crate::session::auth::constant_time_eq;
use crate::text::{
    char_lists, chars_of, decimal, pieces, push_decimal, same_chars, split_at, split_words, words,
};

verus! {

/// The well-known PCP / NAT-PMP server port at the gateway.
pub const PORT: u16 = 5351;

/// Per-attempt receive timeout in milliseconds; a couple are tried before
/// giving up.
pub const ATTEMPT_TIMEOUT_MS: u64 = 250;

pub const ATTEMPTS: usize = 3;

/// IANA protocol number for UDP.
pub const PROTO_UDP: u8 = 17;

/// A port mapping the gateway installed.
#[derive(Debug, Clone, Copy, PartialEq, Eq, Structural)]
pub struct Mapping {
    /// The externally-reachable address the gateway forwards to our socket.
    pub external: SocketAddr,
    /// How long the gateway will hold it, in seconds.
    pub lifetime: u32,
}

/// The value of a hexadecimal digit; 16 for any other character.
pub open spec fn hex_value(c: char) -> nat {
    if '0' <= c <= '9' {
        (c as u32 - 48) as nat
    } else if 'a' <= c <= 'f' {
        (c as u32 - 87) as nat
    } else if 'A' <= c <= 'F' {
        (c as u32 - 55) as nat
    } else {
        16
    }
}

fn hex_digit_value(c: char) -> (v: u32)
    ensures
        v == hex_value(c),
{
    if '0' <= c && c <= '9' {
        c as u32 - 48
    } else if 'a' <= c && c <= 'f' {
        c as u32 - 87
    } else if 'A' <= c && c <= 'F' {
        c as u32 - 55
    } else {
        16
    }
}

/// The number that hexadecimal digits spell, if they are digits.
pub open spec fn hex_number(s: Seq<char>) -> Option<nat>
    decreases s.len(),
{
    if s.len() == 0 {
        Some(0)
    } else {
        match hex_number(s.drop_last()) {
            Some(n) => if hex_value(s.last()) < 16 {
                Some(n * 16 + hex_value(s.last()))
            } else {
                None
            },
            None => None,
        }
    }
}

/// A hexadecimal number of at most 32 bits, with or without a plus sign.
pub open spec fn hex32(s: Seq<char>) -> Option<u32> {
    let digits = if s.len() > 0 && s[0] == '+' {
        s.drop_first()
    } else {
        s
    };
    match hex_number(digits) {
        Some(n) => if digits.len() > 0 && n <= u32::MAX {
            Some(n as u32)
        } else {
            None
        },
        None => None,
    }
}

/// More digits never make a number smaller, nor a text a number again.
proof fn lemma_hex_prefix(s: Seq<char>, k: int)
    requires
        0 <= k <= s.len(),
    ensures
        hex_number(s.take(k)) is None ==> hex_number(s) is None,
        hex_number(s) is Some ==> hex_number(s.take(k)) is Some && hex_number(s.take(k))->0
            <= hex_number(s)->0,
    decreases s.len(),
{
    if k == s.len() {
        assert(s.take(k) =~= s);
    } else {
        assert(s.drop_last().take(k) =~= s.take(k));
        lemma_hex_prefix(s.drop_last(), k);
    }
}

fn parse_hex32(s: &[char]) -> (r: Option<u32>)
    ensures
        r == hex32(s@),
{
    let start: usize = if s.len() > 0 && s[0] == '+' {
        1
    } else {
        0
    };
    let ghost digits = s@.skip(start as int);
    proof {
        if start == 0 {
            assert(digits =~= s@);
        } else {
            assert(digits =~= s@.drop_first());
        }
        assert(digits.take(0) =~= Seq::<char>::empty());
    }
    if start >= s.len() {
        return None;
    }
    let mut n: u32 = 0;
    let mut i: usize = start;
    while i < s.len()
        invariant
            start <= i <= s@.len(),
            digits == s@.skip(start as int),
            hex32(s@) == (match hex_number(digits) {
                Some(n) => if digits.len() > 0 && n <= u32::MAX {
                    Some(n as u32)
                } else {
                    None
                },
                None => None,
            }),
            hex_number(digits.take(i - start)) == Some(n as nat),
        decreases s@.len() - i,
    {
        let v: u32 = hex_digit_value(s[i]);
        proof {
            let upto = digits.take(i - start + 1);
            assert(upto.drop_last() =~= digits.take(i - start));
            assert(upto.last() == s@[i as int]);
            lemma_hex_prefix(digits, i - start + 1);
        }
        if v >= 16 || n > (u32::MAX - v) / 16 {
            return None;
        }
        n = n * 16 + v;
        i = i + 1;
    }
    proof {
        assert(digits.take(i - start) =~= digits);
    }
    Some(n)
}

/// The address whose octets are the bytes of `raw`, least significant first.
pub open spec fn little_endian_addr(raw: u32) -> Ipv4Addr {
    Ipv4Addr {
        bits: (raw % 256 * 0x100_0000 + raw / 256 % 256 * 0x1_0000 + raw / 0x1_0000 % 256 * 0x100
            + raw / 0x100_0000) as u32,
    }
}

/// The gateway of the first default route among the lines of a routing table.
/// A line without the three leading columns ends the search.
pub open spec fn gateway_in(lines: Seq<Seq<char>>) -> Option<Ipv4Addr>
    decreases lines.len(),
{
    if lines.len() == 0 {
        None
    } else {
        let cols = words(lines[0]);
        if cols.len() < 3 {
            None
        } else if cols[1] == "00000000"@ {
            match hex32(cols[2]) {
                Some(raw) => Some(little_endian_addr(raw)),
                None => None,
            }
        } else {
            gateway_in(lines.drop_first())
        }
    }
}

/// Parse the default route's gateway from `/proc/net/route` content. The
/// Destination and Gateway columns are little-endian hex IPv4.
pub fn parse_default_gateway(table: &str) -> (r: Option<Ipv4Addr>)
    ensures
        r == gateway_in(pieces(table@, '\n').drop_first()),
{
    let chars = chars_of(table);
    let lines = split_at(chars.as_slice(), '\n');
    let zero = chars_of("00000000");
    let ghost all = char_lists(lines@);
    proof {
        assert(all.drop_first() =~= all.skip(1));
    }
    let mut i: usize = 1;
    while i < lines.len()
        invariant
            1 <= i,
            i <= lines@.len() || lines@.len() == 0,
            all == char_lists(lines@),
            zero@ == "00000000"@,
            gateway_in(pieces(table@, '\n').drop_first()) == gateway_in(all.skip(i as int)),
        decreases lines@.len() - i,
    {
        let cols = split_words(lines[i].as_slice());
        let ghost rest = all.skip(i as int);
        proof {
            assert(rest[0] == lines@[i as int]@);
            assert(rest.drop_first() =~= all.skip(i + 1));
            assert(char_lists(cols@) == words(rest[0]));
        }
        if cols.len() < 3 {
            proof {
                assert(char_lists(cols@).len() < 3);
            }
            return None;
        }
        proof {
            assert(char_lists(cols@)[1] == cols@[1]@);
            assert(char_lists(cols@)[2] == cols@[2]@);
        }
        if same_chars(cols[1].as_slice(), zero.as_slice()) {
            return match parse_hex32(cols[2].as_slice()) {
                Some(raw) => Some(
                    Ipv4Addr {
                        bits: raw % 256 * 0x100_0000 + raw / 256 % 256 * 0x1_0000 + raw / 0x1_0000
                            % 256 * 0x100 + raw / 0x100_0000,
                    },
                ),
                None => None,
            };
        }
        i = i + 1;
    }
    proof {
        lemma_pieces_nonempty(table@, '\n');
        assert(all.skip(i as int) =~= Seq::<Seq<char>>::empty());
    }
    None
}

proof fn lemma_pieces_nonempty(s: Seq<char>, c: char)
    ensures
        pieces(s, c).len() >= 1,
{
}

/// External-address request: version 0, opcode 0.
pub fn natpmp_external_request() -> (b: [u8; 2])
    ensures
        b@ == seq![0u8, 0],
{
    let b: [u8; 2] = [0, 0];
    proof {
        assert(b@ =~= seq![0u8, 0]);
    }
    b
}

fn fault(text: &str) -> (e: ProxyError)
    ensures
        e matches ProxyError::Quic(t) && t@ == text@,
{
    ProxyError::Quic(String::from_str(text))
}

fn fault_code(text: &str, code: u64) -> (e: ProxyError)
    ensures
        e matches ProxyError::Quic(t) && t@ == text@ + decimal(code as nat),
{
    let mut t = String::from_str(text);
    push_decimal(&mut t, code);
    ProxyError::Quic(t)
}

/// What an external-address response says, or what is wrong with it.
pub open spec fn external_in(resp: Seq<u8>) -> Result<Ipv4Addr, Seq<char>> {
    if resp.len() < 12 || resp[0] != 0 || resp[1] != 128 {
        Err("bad NAT-PMP external response"@)
    } else if be16(resp, 2) != 0 {
        Err("NAT-PMP error "@ + decimal(be16(resp, 2) as nat))
    } else {
        Ok(Ipv4Addr { bits: be32(resp, 8) as u32 })
    }
}

/// Parse the external-address response (12 bytes): [0, 128, result(2),
/// epoch(4), external_ip(4)].
pub fn parse_natpmp_external(resp: &[u8]) -> (r: Result<Ipv4Addr, ProxyError>)
    ensures
        match external_in(resp@) {
            Ok(ip) => r matches Ok(got) && got == ip,
            Err(text) => r matches Err(ProxyError::Quic(t)) && t@ == text,
        },
{
    if resp.len() < 12 || resp[0] != 0 || resp[1] != 128 {
        return Err(fault("bad NAT-PMP external response"));
    }
    let result: u16 = read_u16(resp, 2);
    if result != 0 {
        return Err(fault_code("NAT-PMP error ", result as u64));
    }
    Ok(Ipv4Addr { bits: read_u32(resp, 8) })
}

/// A UDP mapping request.
pub open spec fn natpmp_request_bytes(internal: u16, suggested: u16, lifetime: u32) -> Seq<u8> {
    seq![0u8, 1, 0, 0] + bytes16(internal) + bytes16(suggested) + bytes32(lifetime)
}

/// UDP mapping request (12 bytes): version 0, opcode 1 (UDP), reserved(2),
/// internal_port(2), suggested_external(2), lifetime(4).
pub fn natpmp_map_request(internal: u16, suggested: u16, lifetime: u32) -> (b: [u8; 12])
    ensures
        b@ == natpmp_request_bytes(internal, suggested, lifetime),
{
    let b: [u8; 12] = [
        0,
        1,
        0,
        0,
        (internal / 256) as u8,
        (internal % 256) as u8,
        (suggested / 256) as u8,
        (suggested % 256) as u8,
        (lifetime / 0x100_0000) as u8,
        (lifetime / 0x1_0000 % 256) as u8,
        (lifetime / 256 % 256) as u8,
        (lifetime % 256) as u8,
    ];
    proof {
        assert(b@ =~= natpmp_request_bytes(internal, suggested, lifetime));
    }
    b
}

/// What a UDP mapping response says, or what is wrong with it.
pub open spec fn natpmp_map_in(resp: Seq<u8>) -> Result<(u16, u16, u32), Seq<char>> {
    if resp.len() < 16 || resp[0] != 0 || resp[1] != 129 {
        Err("bad NAT-PMP map response"@)
    } else if be16(resp, 2) != 0 {
        Err("NAT-PMP map error "@ + decimal(be16(resp, 2) as nat))
    } else {
        Ok((be16(resp, 8) as u16, be16(resp, 10) as u16, be32(resp, 12) as u32))
    }
}

/// Parse the UDP mapping response (16 bytes): [0, 129, result(2), epoch(4),
/// internal(2), mapped_external(2), lifetime(4)] → (internal, mapped, lifetime).
pub fn parse_natpmp_map(resp: &[u8]) -> (r: Result<(u16, u16, u32), ProxyError>)
    ensures
        match natpmp_map_in(resp@) {
            Ok(v) => r matches Ok(got) && got == v,
            Err(text) => r matches Err(ProxyError::Quic(t)) && t@ == text,
        },
{
    if resp.len() < 16 || resp[0] != 0 || resp[1] != 129 {
        return Err(fault("bad NAT-PMP map response"));
    }
    let result: u16 = read_u16(resp, 2);
    if result != 0 {
        return Err(fault_code("NAT-PMP map error ", result as u64));
    }
    Ok((read_u16(resp, 8), read_u16(resp, 10), read_u32(resp, 12)))
}

/// An IPv4 address as IPv4-mapped IPv6.
pub open spec fn mapped_bytes(ip: Ipv4Addr) -> Seq<u8> {
    seq![0u8, 0, 0, 0, 0, 0, 0, 0, 0, 0, 0xff, 0xff] + bytes32(ip.bits)
}

/// An IPv4 address as a 16-byte IPv4-mapped IPv6 (`::ffff:a.b.c.d`).
pub fn v4_mapped(ip: Ipv4Addr) -> (b: [u8; 16])
    ensures
        b@ == mapped_bytes(ip),
{
    let v: u32 = ip.bits;
    let b: [u8; 16] = [
        0,
        0,
        0,
        0,
        0,
        0,
        0,
        0,
        0,
        0,
        0xff,
        0xff,
        (v / 0x100_0000) as u8,
        (v / 0x1_0000 % 256) as u8,
        (v / 256 % 256) as u8,
        (v % 256) as u8,
    ];
    proof {
        assert(b@ =~= mapped_bytes(ip));
    }
    b
}

/// The IPv4 address behind an IPv4-mapped IPv6, if it is one.
pub open spec fn unmapped(bytes: Seq<u8>) -> Option<Ipv4Addr> {
    if bytes.len() != 16 || bytes[10] != 0xff || bytes[11] != 0xff {
        None
    } else {
        Some(Ipv4Addr { bits: be32(bytes, 12) as u32 })
    }
}

/// Recover an IPv4 address from a 16-byte IPv4-mapped IPv6, if it is one.
pub fn v4_from_mapped(bytes: &[u8]) -> (r: Option<Ipv4Addr>)
    ensures
        r == unmapped(bytes@),
{
    if bytes.len() != 16 || bytes[10] != 0xff || bytes[11] != 0xff {
        return None;
    }
    Some(Ipv4Addr { bits: read_u32(bytes, 12) })
}

/// A PCP MAP request.
pub open spec fn pcp_request_bytes(
    client_ip: Ipv4Addr,
    nonce: Seq<u8>,
    internal_port: u16,
    suggested_port: u16,
    lifetime: u32,
) -> Seq<u8> {
    seq![2u8, 1, 0, 0] + bytes32(lifetime) + mapped_bytes(client_ip) + nonce + seq![
        PROTO_UDP,
        0,
        0,
        0,
    ] + bytes16(internal_port) + bytes16(suggested_port) + mapped_bytes(Ipv4Addr { bits: 0 })
}

/// Build a PCP MAP request (60 bytes): a 24-byte common header + the 36-byte
/// MAP opcode payload. IPv4 addresses travel as IPv4-mapped IPv6.
pub fn pcp_map_request(
    client_ip: Ipv4Addr,
    nonce: [u8; 12],
    internal_port: u16,
    suggested_port: u16,
    lifetime: u32,
) -> (b: Vec<u8>)
    ensures
        b@ == pcp_request_bytes(client_ip, nonce@, internal_port, suggested_port, lifetime),
        b@.len() == 60,
{
    let mut b: Vec<u8> = Vec::new();
    // Header: version, R=0 | opcode=MAP(1), reserved.
    b.push(2);
    b.push(1);
    b.push(0);
    b.push(0);
    push_u32(&mut b, lifetime);
    b.extend_from_slice(v4_mapped(client_ip).as_slice());
    // MAP opcode.
    b.extend_from_slice(nonce.as_slice());
    b.push(PROTO_UDP);
    b.push(0);
    b.push(0);
    b.push(0);
    push_u16(&mut b, internal_port);
    push_u16(&mut b, suggested_port);
    // no preference
    b.extend_from_slice(v4_mapped(Ipv4Addr { bits: 0 }).as_slice());
    proof {
        assert(b@ =~= pcp_request_bytes(
            client_ip,
            nonce@,
            internal_port,
            suggested_port,
            lifetime,
        ));
    }
    b
}

/// What a PCP MAP response says, or what is wrong with it.
pub open spec fn pcp_map_in(resp: Seq<u8>, nonce: Seq<u8>) -> Result<
    (Ipv4Addr, u16, u32),
    Seq<char>,
> {
    if resp.len() < 60 || resp[0] != 2 || resp[1] != 0x81 {
        Err("bad PCP response"@)
    } else if resp[3] != 0 {
        Err("PCP error "@ + decimal(resp[3] as nat))
    } else if resp.subrange(24, 36) != nonce {
        Err("PCP nonce mismatch"@)
    } else {
        match unmapped(resp.subrange(44, 60)) {
            None => Err("PCP returned a non-IPv4 mapping"@),
            Some(ip) => Ok((ip, be16(resp, 42) as u16, be32(resp, 4) as u32)),
        }
    }
}

/// Parse a PCP MAP response → (external IP, external port, lifetime). Verifies
/// the version, response flag, opcode, success code, and echoed nonce.
pub fn parse_pcp_map(resp: &[u8], nonce: &[u8; 12]) -> (r: Result<
    (Ipv4Addr, u16, u32),
    ProxyError,
>)
    ensures
        match pcp_map_in(resp@, nonce@) {
            Ok(v) => r matches Ok(got) && got == v,
            Err(text) => r matches Err(ProxyError::Quic(t)) && t@ == text,
        },
{
    if resp.len() < 60 || resp[0] != 2 || resp[1] != 0x81 {
        return Err(fault("bad PCP response"));
    }
    let result: u8 = resp[3];
    if result != 0 {
        return Err(fault_code("PCP error ", result as u64));
    }
    let lifetime: u32 = read_u32(resp, 4);
    // MAP payload starts at offset 24.
    if !constant_time_eq(slice_subrange(resp, 24, 36), nonce.as_slice()) {
        return Err(fault("PCP nonce mismatch"));
    }
    let external_port: u16 = read_u16(resp, 42);
    match v4_from_mapped(slice_subrange(resp, 44, 60)) {
        Some(ip) => Ok((ip, external_port, lifetime)),
        None => Err(fault("PCP returned a non-IPv4 mapping")),
    }
}

/// A random nonce: [`twelve`] random bytes. It is an anti-spoofing echo, not a
/// secret, and whatever bytes come back will do.
pub fn rand_nonce() -> [u8; 12] {
    let v = random_bytes(12);
    twelve(v.as_slice())
}

/// What an exchange with the gateway does next.
#[derive(Debug)]
pub enum ExchangeStep {
    /// Send the request again; this many sends may follow that one.
    Resend { left: usize },
    /// The first response.
    Done(Vec<u8>),
}

/// What an exchange does about a reply, or the lack of one, when `left` more
/// sends are allowed. The first datagram ends it.
pub fn exchange_step(left: usize, reply: Reply) -> (r: Result<ExchangeStep, ProxyError>)
    ensures
        match reply {
            Reply::Datagram(b) => r == Ok::<ExchangeStep, ProxyError>(ExchangeStep::Done(b)),
            Reply::Failed(e) => r == Err::<ExchangeStep, ProxyError>(e),
            Reply::TimedOut => if left > 0 {
                r == Ok::<ExchangeStep, ProxyError>(
                    ExchangeStep::Resend { left: (left - 1) as usize },
                )
            } else {
                r matches Err(ProxyError::Quic(t)) && t@ == "port-mapping server did not respond"@
            },
        },
{
    match reply {
        Reply::Datagram(b) => Ok(ExchangeStep::Done(b)),
        Reply::Failed(e) => Err(e),
        Reply::TimedOut => if left > 0 {
            Ok(ExchangeStep::Resend { left: left - 1 })
        } else {
            Err(ProxyError::Quic(String::from_str("port-mapping server did not respond")))
        },
    }
}

/// Where a mapping request stands.
#[derive(Debug, Clone, Copy, PartialEq, Eq, Structural)]
pub enum Attempt {
    /// PCP (preferred).
    Pcp,
    /// NAT-PMP: asking for the external address.
    External,
    /// NAT-PMP: asking for the mapping; the external address is known.
    Forward { external: Ipv4Addr },
}

/// What an exchange with the gateway leads to.
#[derive(Debug, Clone, Copy, PartialEq, Eq, Structural)]
pub enum Answer {
    /// Ask again.
    Ask(Attempt),
    /// The mapping is installed.
    Mapped(Mapping),
}

/// What is asked for.
#[derive(Debug, Clone, Copy, PartialEq, Eq, Structural)]
pub struct MapRequest {
    pub client_ip: Ipv4Addr,
    pub internal_port: u16,
    pub lifetime: u32,
}

impl Attempt {
    /// What an answer, or the lack of one, leads to.
    pub open spec fn told(
        self,
        resp: Result<Vec<u8>, ProxyError>,
        nonce: Seq<u8>,
        r: Result<Answer, ProxyError>,
    ) -> bool {
        match self {
            Attempt::Pcp => r matches Ok(a) && a == match resp {
                Ok(b) => match pcp_map_in(b@, nonce) {
                    Ok((ip, port, life)) => Answer::Mapped(
                        Mapping {
                            external: SocketAddr::at(IpAddr::V4(ip), port),
                            lifetime: life,
                        },
                    ),
                    Err(_) => Answer::Ask(Attempt::External),
                },
                Err(_) => Answer::Ask(Attempt::External),
            },
            Attempt::External => match resp {
                Ok(b) => match external_in(b@) {
                    Ok(ip) => r matches Ok(a) && a == Answer::Ask(Attempt::Forward { external: ip }),
                    Err(text) => r matches Err(ProxyError::Quic(t)) && t@ == text,
                },
                Err(e) => r matches Err(got) && got == e,
            },
            Attempt::Forward { external } => match resp {
                Ok(b) => match natpmp_map_in(b@) {
                    Ok((_, port, life)) => r matches Ok(a) && a == Answer::Mapped(
                        Mapping {
                            external: SocketAddr::at(IpAddr::V4(external), port),
                            lifetime: life,
                        },
                    ),
                    Err(text) => r matches Err(ProxyError::Quic(t)) && t@ == text,
                },
                Err(e) => r matches Err(got) && got == e,
            },
        }
    }

    /// What the gateway is asked.
    pub open spec fn asks(self, req: MapRequest, nonce: Seq<u8>) -> Seq<u8> {
        match self {
            Attempt::Pcp => pcp_request_bytes(
                req.client_ip,
                nonce,
                req.internal_port,
                0,
                req.lifetime,
            ),
            Attempt::External => seq![0u8, 0],
            Attempt::Forward { .. } => natpmp_request_bytes(req.internal_port, 0, req.lifetime),
        }
    }

    /// The datagram to send to the gateway.
    pub fn request(&self, req: &MapRequest, nonce: &[u8; 12]) -> (b: Vec<u8>)
        ensures
            b@ == self.asks(*req, nonce@),
    {
        match self {
            Attempt::Pcp => pcp_map_request(
                req.client_ip,
                *nonce,
                req.internal_port,
                0,
                req.lifetime,
            ),
            Attempt::External => {
                let mut b: Vec<u8> = Vec::new();
                b.extend_from_slice(natpmp_external_request().as_slice());
                proof {
                    assert(b@ =~= seq![0u8, 0]);
                }
                b
            },
            Attempt::Forward { .. } => {
                let mut b: Vec<u8> = Vec::new();
                b.extend_from_slice(
                    natpmp_map_request(req.internal_port, 0, req.lifetime).as_slice(),
                );
                proof {
                    assert(b@ =~= natpmp_request_bytes(req.internal_port, 0, req.lifetime));
                }
                b
            },
        }
    }

    /// Take in the gateway's response, or the failure to get one. A PCP
    /// exchange that does not give a mapping leads to NAT-PMP; a NAT-PMP
    /// exchange that fails is the end.
    pub fn answered(self, resp: Result<Vec<u8>, ProxyError>, nonce: &[u8; 12]) -> (r: Result<
        Answer,
        ProxyError,
    >)
        ensures
            self.told(resp, nonce@, r),
    {
        match self {
            Attempt::Pcp => match resp {
                Ok(b) => match parse_pcp_map(b.as_slice(), nonce) {
                    Ok((ip, port, life)) => Ok(
                        Answer::Mapped(
                            Mapping {
                                external: SocketAddr::new(IpAddr::V4(ip), port),
                                lifetime: life,
                            },
                        ),
                    ),
                    Err(_) => Ok(Answer::Ask(Attempt::External)),
                },
                Err(_) => Ok(Answer::Ask(Attempt::External)),
            },
            Attempt::External => match resp {
                Ok(b) => match parse_natpmp_external(b.as_slice()) {
                    Ok(ip) => Ok(Answer::Ask(Attempt::Forward { external: ip })),
                    Err(e) => Err(e),
                },
                Err(e) => Err(e),
            },
            Attempt::Forward { external } => match resp {
                Ok(b) => match parse_natpmp_map(b.as_slice()) {
                    Ok((_, port, life)) => Ok(
                        Answer::Mapped(
                            Mapping {
                                external: SocketAddr::new(IpAddr::V4(external), port),
                                lifetime: life,
                            },
                        ),
                    ),
                    Err(e) => Err(e),
                },
                Err(e) => Err(e),
            },
        }
    }
}

/// An IPv4 address survives the trip through its IPv6 form.
pub proof fn lemma_v4_mapped_roundtrip(ip: Ipv4Addr)
    ensures
        unmapped(mapped_bytes(ip)) == Some(ip),
{
    let b = mapped_bytes(ip);
    assert(be32(b, 12) == ip.bits);
}

/// A gateway's success response to a PCP request is read as it was meant:
/// the response echoes the nonce and carries the external address.
pub proof fn lemma_pcp_response(
    nonce: Seq<u8>,
    epoch: Seq<u8>,
    middle: Seq<u8>,
    port: u16,
    ip: Ipv4Addr,
    lifetime: u32,
)
    requires
        nonce.len() == 12,
        epoch.len() == 16,
        middle.len() == 6,
    ensures
        pcp_map_in(
            seq![2u8, 0x81, 0, 0] + bytes32(lifetime) + epoch + nonce + middle + bytes16(port)
                + mapped_bytes(ip),
            nonce,
        ) == Ok::<(Ipv4Addr, u16, u32), Seq<char>>((ip, port, lifetime)),
{
    let resp = seq![2u8, 0x81, 0, 0] + bytes32(lifetime) + epoch + nonce + middle + bytes16(port)
        + mapped_bytes(ip);
    lemma_v4_mapped_roundtrip(ip);
    assert(resp.len() == 60);
    assert(resp.subrange(24, 36) =~= nonce);
    assert(resp.subrange(44, 60) =~= mapped_bytes(ip));
    assert(be16(resp, 42) == port);
    assert(be32(resp, 4) == lifetime);
}

/// The digits of bytes in hexadecimal spell the number that the bytes spell.
pub proof fn lemma_hex_number(bytes: Seq<u8>)
    ensures
        hex_number(crate::text::hex_of(bytes)) == Some(crate::bigendian::be_value(bytes)),
    decreases bytes.len(),
{
    if bytes.len() > 0 {
        let d = bytes.drop_last();
        lemma_hex_number(d);
        let s = crate::text::hex_of(bytes);
        let a = crate::text::hex_of(d);
        let high = (bytes.last() / 16) as nat;
        let low = (bytes.last() % 16) as nat;
        let m = a.push(crate::text::hex_digit(high));
        assert(s.drop_last() =~= m);
        assert(m.drop_last() =~= a);
        assert(hex_value(crate::text::hex_digit(high)) == high);
        assert(hex_value(crate::text::hex_digit(low)) == low);
        let n = crate::bigendian::be_value(d);
        assert(hex_number(m) == Some(n * 16 + high));
        assert(s.last() == crate::text::hex_digit(low));
        assert(hex_number(s) == Some((n * 16 + high) * 16 + low));
        assert(bytes.last() == high * 16 + low);
    }
}

/// A hexadecimal digit means the same in either case.
pub proof fn lemma_hex_case(c: char)
    requires
        'A' <= c <= 'F',
    ensures
        hex_value(c) == hex_value(crate::text::lower(c)),
{
}

/// Eight digits of the routing table spell an address whose first octet is the
/// number's lowest byte.
pub proof fn lemma_table_address(a: u8, b: u8, c: u8, d: u8)
    ensures
        ({
            let text = crate::text::hex_of(seq![d, c, b, a]);
            &&& hex32(text) is Some
            &&& little_endian_addr(hex32(text)->0).bits == a * 0x100_0000 + b * 0x1_0000 + c * 256
                + d
        }),
{
    let bytes = seq![d, c, b, a];
    let text = crate::text::hex_of(bytes);
    lemma_hex_number(bytes);
    crate::text::lemma_hex_len(bytes);
    crate::text::lemma_hex(bytes, 0);
    crate::bigendian::lemma_be_value_4(bytes, 0);
    assert(bytes.subrange(0, 4) =~= bytes);
    assert(text[0] != '+');
    let n: int = d * 0x100_0000 + c * 0x1_0000 + b * 256 + a;
    assert(n == crate::bigendian::be_value(bytes));
    let raw = n as u32;
    assert(raw % 256 == a && raw / 256 % 256 == b && raw / 0x1_0000 % 256 == c && raw
        / 0x100_0000 == d);
}

/// The gateway is that of the first line of the table, after its heading,
/// whose destination is everything; the lines before it lead elsewhere, and
/// none of them is cut short.
pub proof fn lemma_gateway_line(lines: Seq<Seq<char>>, k: int)
    requires
        0 <= k < lines.len(),
        forall|i: int|
            0 <= i <= k ==> words(#[trigger] lines[i]).len() >= 3 && (words(lines[i])[1]
                == "00000000"@ <==> i == k),
    ensures
        gateway_in(lines) == match hex32(words(lines[k])[2]) {
            Some(raw) => Some(little_endian_addr(raw)),
            None => None,
        },
    decreases lines.len(),
{
    assert(words(lines[0]).len() >= 3);
    if k > 0 {
        let d = lines.drop_first();
        assert forall|i: int| 0 <= i <= k - 1 implies words(#[trigger] d[i]).len() >= 3 && (words(
            d[i],
        )[1] == "00000000"@ <==> i == k - 1) by {
            assert(d[i] == lines[i + 1]);
        }
        lemma_gateway_line(d, k - 1);
        assert(d[k - 1] == lines[k]);
    }
}

/// A table without a line to everything has no gateway.
pub proof fn lemma_no_gateway(lines: Seq<Seq<char>>)
    requires
        forall|i: int|
            0 <= i < lines.len() ==> words(#[trigger] lines[i]).len() < 3 || words(lines[i])[1]
                != "00000000"@,
    ensures
        gateway_in(lines) is None,
    decreases lines.len(),
{
    if lines.len() > 0 {
        let d = lines.drop_first();
        assert(words(lines[0]).len() < 3 || words(lines[0])[1] != "00000000"@);
        assert forall|i: int| 0 <= i < d.len() implies words(#[trigger] d[i]).len() < 3 || words(
            d[i],
        )[1] != "00000000"@ by {
            assert(d[i] == lines[i + 1]);
        }
        lemma_no_gateway(d);
    }
}

/// A NAT-PMP gateway's answer about its address: it is taken exactly if it is
/// whole, an answer to that question, and no error; the address is its last
/// four bytes.
pub proof fn lemma_external_answer(resp: Seq<u8>)
    ensures
        external_in(resp) is Ok <==> resp.len() >= 12 && resp[0] == 0 && resp[1] == 128 && resp[2]
            == 0 && resp[3] == 0,
        external_in(resp) matches Ok(ip) ==> ip.bits == resp[8] * 0x100_0000 + resp[9] * 0x1_0000
            + resp[10] * 256 + resp[11],
{
}

/// A NAT-PMP gateway's answer about a mapping: it is taken exactly if it is
/// whole, an answer to that question, and no error; it holds the internal and
/// the external port and the lifetime.
pub proof fn lemma_map_answer(resp: Seq<u8>)
    ensures
        natpmp_map_in(resp) is Ok <==> resp.len() >= 16 && resp[0] == 0 && resp[1] == 129 && resp[2]
            == 0 && resp[3] == 0,
        natpmp_map_in(resp) matches Ok((internal, external, lifetime)) ==> {
            &&& internal == resp[8] * 256 + resp[9]
            &&& external == resp[10] * 256 + resp[11]
            &&& lifetime == resp[12] * 0x100_0000 + resp[13] * 0x1_0000 + resp[14] * 256 + resp[15]
        },
{
}

/// A NAT-PMP request on the wire: twelve bytes, for UDP, with the internal
/// port, the suggested port and the lifetime.
pub proof fn lemma_natpmp_layout(internal: u16, suggested: u16, lifetime: u32)
    ensures
        ({
            let b = natpmp_request_bytes(internal, suggested, lifetime);
            &&& b.len() == 12
            &&& b[0] == 0 && b[1] == 1 && b[2] == 0 && b[3] == 0
            &&& b[4] * 256 + b[5] == internal
            &&& b[6] * 256 + b[7] == suggested
            &&& b[8] * 0x100_0000 + b[9] * 0x1_0000 + b[10] * 256 + b[11] == lifetime
        }),
{
}

/// A PCP request on the wire: sixty bytes, version 2, the mapping opcode, the
/// lifetime, the client's address, the nonce, UDP, the two ports, and no wish
/// for an external address.
pub proof fn lemma_pcp_layout(
    client_ip: Ipv4Addr,
    nonce: Seq<u8>,
    internal_port: u16,
    suggested_port: u16,
    lifetime: u32,
)
    requires
        nonce.len() == 12,
    ensures
        ({
            let b = pcp_request_bytes(client_ip, nonce, internal_port, suggested_port, lifetime);
            &&& b.len() == 60
            &&& b[0] == 2 && b[1] == 1 && b[2] == 0 && b[3] == 0
            &&& b[4] * 0x100_0000 + b[5] * 0x1_0000 + b[6] * 256 + b[7] == lifetime
            &&& forall|i: int| 8 <= i < 18 ==> #[trigger] b[i] == 0
            &&& b[18] == 0xff && b[19] == 0xff
            &&& b[20] * 0x100_0000 + b[21] * 0x1_0000 + b[22] * 256 + b[23] == client_ip.bits
            &&& b.subrange(24, 36) == nonce
            &&& b[36] == 17 && b[37] == 0 && b[38] == 0 && b[39] == 0
            &&& b[40] * 256 + b[41] == internal_port
            &&& b[42] * 256 + b[43] == suggested_port
            &&& forall|i: int| 44 <= i < 54 ==> #[trigger] b[i] == 0
            &&& b[54] == 0xff && b[55] == 0xff
            &&& b[56] == 0 && b[57] == 0 && b[58] == 0 && b[59] == 0
        }),
{
    let b = pcp_request_bytes(client_ip, nonce, internal_port, suggested_port, lifetime);
    assert(b.subrange(24, 36) =~= nonce);
}

/// A PCP answer that is taken is whole, a successful answer to a mapping, and
/// to the very request with that nonce; it holds the external address and port
/// and the lifetime.
pub proof fn lemma_pcp_answer(resp: Seq<u8>, nonce: Seq<u8>)
    ensures
        pcp_map_in(resp, nonce) is Ok <==> resp.len() >= 60 && resp[0] == 2 && resp[1] == 0x81
            && resp[3] == 0 && resp.subrange(24, 36) == nonce && resp[54] == 0xff && resp[55]
            == 0xff,
        pcp_map_in(resp, nonce) matches Ok((ip, port, lifetime)) ==> {
            &&& ip.bits == resp[56] * 0x100_0000 + resp[57] * 0x1_0000 + resp[58] * 256 + resp[59]
            &&& port == resp[42] * 256 + resp[43]
            &&& lifetime == resp[4] * 0x100_0000 + resp[5] * 0x1_0000 + resp[6] * 256 + resp[7]
        },
{
    if resp.len() >= 60 {
        let tail = resp.subrange(44, 60);
        assert(tail[10] == resp[54] && tail[11] == resp[55] && tail[12] == resp[56] && tail[13]
            == resp[57] && tail[14] == resp[58] && tail[15] == resp[59]);
    }
}

/// How a mapping comes about: by PCP if the gateway speaks it; else the
/// gateway is asked by NAT-PMP for its address and then for the port, and the
/// mapping is that address with that port. A gateway that does not answer PCP
/// is not given up; one that does not answer NAT-PMP is.
pub proof fn lemma_mapped(
    resp: Result<Vec<u8>, ProxyError>,
    nonce: Seq<u8>,
    external: Ipv4Addr,
    pcp: Result<Answer, ProxyError>,
    addr: Result<Answer, ProxyError>,
    port: Result<Answer, ProxyError>,
)
    requires
        Attempt::Pcp.told(resp, nonce, pcp),
        Attempt::External.told(resp, nonce, addr),
        (Attempt::Forward { external }).told(resp, nonce, port),
    ensures
        resp is Err ==> pcp == Ok::<Answer, ProxyError>(Answer::Ask(Attempt::External)) && addr is Err
            && port is Err,
        resp matches Ok(b) ==> match pcp_map_in(b@, nonce) {
            Ok((ip, p, life)) => pcp matches Ok(Answer::Mapped(m)) && m.external == SocketAddr::at(
                IpAddr::V4(ip),
                p,
            ) && m.lifetime == life,
            Err(_) => pcp == Ok::<Answer, ProxyError>(Answer::Ask(Attempt::External)),
        },
        resp matches Ok(b) ==> match external_in(b@) {
            Ok(ip) => addr == Ok::<Answer, ProxyError>(
                Answer::Ask(Attempt::Forward { external: ip }),
            ),
            Err(_) => addr is Err,
        },
        resp matches Ok(b) ==> match natpmp_map_in(b@) {
            Ok((_, p, life)) => port matches Ok(Answer::Mapped(m)) && m.external == SocketAddr::at(
                IpAddr::V4(external),
                p,
            ) && m.lifetime == life,
            Err(_) => port is Err,
        },
{
}

/// Each step asks what it is for: the whole mapping, the address, or the port.
pub proof fn lemma_asked(req: MapRequest, nonce: Seq<u8>, external: Ipv4Addr)
    ensures
        Attempt::Pcp.asks(req, nonce) == pcp_request_bytes(
            req.client_ip,
            nonce,
            req.internal_port,
            0,
            req.lifetime,
        ),
        Attempt::External.asks(req, nonce) == seq![0u8, 0],
        (Attempt::Forward { external }).asks(req, nonce) == natpmp_request_bytes(
            req.internal_port,
            0,
            req.lifetime,
        ),
{
}

} // verus!
