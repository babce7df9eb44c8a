//! Error types.

use vstd::prelude::*;

use crate::net::IpAddr;
use crate::text::{decimal, ip_text, push_decimal, push_ip};

verus! {

/// Errors during capsule/VarInt decoding.
#[derive(Debug, Clone, Copy, PartialEq, Eq, Structural)]
pub enum DecodeError {
    /// The buffer ended inside a field.
    Underflow,
    /// The IP version byte is neither 4 nor 6.
    InvalidIpVersion(u8),
    /// The prefix length is longer than the address.
    InvalidPrefixLength { ip_version: u8, prefix_len: u8 },
    /// A variable-length integer, or the value it spells, is not allowed here.
    InvalidVarInt,
    /// Fewer bytes are there than a length field announces.
    BufferTooShort { needed: usize, available: usize },
    /// Bytes are left after the last field.
    TrailingBytes(usize),
}

/// Errors during IP packet forwarding.
#[derive(Debug, Clone, Copy, PartialEq, Eq, Structural)]
pub enum ForwardingError {
    /// The packet does not parse.
    MalformedPacket,
    /// The source address is not assigned to the session.
    SourceAddressViolation(IpAddr),
    /// The TTL or Hop Limit ran out.
    TtlExpired,
    /// A link-local address, which is never forwarded.
    LinkLocalDrop,
    /// The packet is larger than the tunnel carries.
    MtuExceeded,
    /// No route leads to the destination.
    NoRoute,
    /// The destination lies outside the advertised routes.
    NotAllowed(IpAddr),
    /// The forwarding queue is full.
    Congested,
    /// The session has used up its rate allowance.
    RateLimited,
}

/// Top-level proxy error.
#[derive(Debug)]
pub enum ProxyError {
    /// A capsule or datagram does not decode.
    Decode(DecodeError),
    /// A packet cannot be forwarded.
    Forwarding(ForwardingError),
    /// An operating-system call failed.
    Io(String),
    /// The CONNECT-IP request is not acceptable.
    InvalidRequest(String),
    /// The client did not authenticate.
    AuthFailed(String),
    /// There is no such session.
    SessionNotFound(u64),
    /// TLS could not be set up.
    Tls(String),
    /// A QUIC operation failed.
    Quic(String),
    /// An HTTP/3 operation failed.
    Http(String),
    /// The configuration is not usable.
    Config(String),
    /// The address pool has nothing left.
    PoolExhausted,
}

/// What a [`DecodeError`] says.
pub open spec fn decode_text(e: DecodeError) -> Seq<char> {
    match e {
        DecodeError::Underflow => "unexpected end of buffer"@,
        DecodeError::InvalidIpVersion(v) => "invalid IP version: "@ + decimal(v as nat),
        DecodeError::InvalidPrefixLength { ip_version, prefix_len } => "invalid prefix length "@
            + decimal(prefix_len as nat) + " for IPv"@ + decimal(ip_version as nat),
        DecodeError::InvalidVarInt => "invalid variable-length integer"@,
        DecodeError::BufferTooShort { needed, available } => "buffer too short: need "@ + decimal(
            needed as nat,
        ) + " bytes, have "@ + decimal(available as nat),
        DecodeError::TrailingBytes(n) => "unexpected trailing bytes: "@ + decimal(n as nat)
            + " bytes remaining"@,
    }
}

impl DecodeError {
    /// The error in words.
    pub fn message(&self) -> (s: String)
        ensures
            s@ == decode_text(*self),
    {
        match *self {
            DecodeError::Underflow => String::from_str("unexpected end of buffer"),
            DecodeError::InvalidIpVersion(v) => {
                let mut s = String::from_str("invalid IP version: ");
                push_decimal(&mut s, v as u64);
                s
            },
            DecodeError::InvalidPrefixLength { ip_version, prefix_len } => {
                let mut s = String::from_str("invalid prefix length ");
                push_decimal(&mut s, prefix_len as u64);
                s.append(" for IPv");
                push_decimal(&mut s, ip_version as u64);
                s
            },
            DecodeError::InvalidVarInt => String::from_str("invalid variable-length integer"),
            DecodeError::BufferTooShort { needed, available } => {
                let mut s = String::from_str("buffer too short: need ");
                push_decimal(&mut s, needed as u64);
                s.append(" bytes, have ");
                push_decimal(&mut s, available as u64);
                s
            },
            DecodeError::TrailingBytes(n) => {
                let mut s = String::from_str("unexpected trailing bytes: ");
                push_decimal(&mut s, n as u64);
                s.append(" bytes remaining");
                s
            },
        }
    }
}

/// What a [`ForwardingError`] says.
pub open spec fn forwarding_text(e: ForwardingError) -> Seq<char> {
    match e {
        ForwardingError::MalformedPacket => "malformed IP packet"@,
        ForwardingError::SourceAddressViolation(a) => "source address "@ + ip_text(a)
            + " not assigned to session"@,
        ForwardingError::TtlExpired => "TTL/Hop Limit expired"@,
        ForwardingError::LinkLocalDrop => "link-local address dropped"@,
        ForwardingError::MtuExceeded => "packet exceeds tunnel MTU"@,
        ForwardingError::NoRoute => "no route to destination"@,
        ForwardingError::NotAllowed(a) => "destination "@ + ip_text(a)
            + " outside advertised routes"@,
        ForwardingError::Congested => "forwarding queue full, packet dropped"@,
        ForwardingError::RateLimited => "session rate limit exceeded"@,
    }
}

impl ForwardingError {
    /// The error in words.
    pub fn message(&self) -> (s: String)
        ensures
            s@ == forwarding_text(*self),
    {
        match *self {
            ForwardingError::MalformedPacket => String::from_str("malformed IP packet"),
            ForwardingError::SourceAddressViolation(a) => {
                let mut s = String::from_str("source address ");
                push_ip(&mut s, a);
                s.append(" not assigned to session");
                s
            },
            ForwardingError::TtlExpired => String::from_str("TTL/Hop Limit expired"),
            ForwardingError::LinkLocalDrop => String::from_str("link-local address dropped"),
            ForwardingError::MtuExceeded => String::from_str("packet exceeds tunnel MTU"),
            ForwardingError::NoRoute => String::from_str("no route to destination"),
            ForwardingError::NotAllowed(a) => {
                let mut s = String::from_str("destination ");
                push_ip(&mut s, a);
                s.append(" outside advertised routes");
                s
            },
            ForwardingError::Congested => String::from_str(
                "forwarding queue full, packet dropped",
            ),
            ForwardingError::RateLimited => String::from_str("session rate limit exceeded"),
        }
    }
}

/// What a [`ProxyError`] says.
pub open spec fn proxy_text(e: ProxyError) -> Seq<char> {
    match e {
        ProxyError::Decode(e) => "decode error: "@ + decode_text(e),
        ProxyError::Forwarding(e) => "forwarding error: "@ + forwarding_text(e),
        ProxyError::Io(t) => "I/O error: "@ + t@,
        ProxyError::InvalidRequest(t) => "invalid CONNECT-IP request: "@ + t@,
        ProxyError::AuthFailed(t) => "authentication failed: "@ + t@,
        ProxyError::SessionNotFound(id) => "session not found: "@ + decimal(id as nat),
        ProxyError::Tls(t) => "TLS error: "@ + t@,
        ProxyError::Quic(t) => "QUIC error: "@ + t@,
        ProxyError::Http(t) => "HTTP/3 error: "@ + t@,
        ProxyError::Config(t) => "configuration error: "@ + t@,
        ProxyError::PoolExhausted => "address pool exhausted"@,
    }
}

impl ProxyError {
    /// The error in words.
    pub fn message(&self) -> (s: String)
        ensures
            s@ == proxy_text(*self),
    {
        match self {
            ProxyError::Decode(e) => {
                let t = e.message();
                String::from_str("decode error: ").concat(t.as_str())
            },
            ProxyError::Forwarding(e) => {
                let t = e.message();
                String::from_str("forwarding error: ").concat(t.as_str())
            },
            ProxyError::Io(t) => String::from_str("I/O error: ").concat(t.as_str()),
            ProxyError::InvalidRequest(t) => String::from_str(
                "invalid CONNECT-IP request: ",
            ).concat(t.as_str()),
            ProxyError::AuthFailed(t) => String::from_str("authentication failed: ").concat(
                t.as_str(),
            ),
            ProxyError::SessionNotFound(id) => {
                let mut s = String::from_str("session not found: ");
                push_decimal(&mut s, *id);
                s
            },
            ProxyError::Tls(t) => String::from_str("TLS error: ").concat(t.as_str()),
            ProxyError::Quic(t) => String::from_str("QUIC error: ").concat(t.as_str()),
            ProxyError::Http(t) => String::from_str("HTTP/3 error: ").concat(t.as_str()),
            ProxyError::Config(t) => String::from_str("configuration error: ").concat(t.as_str()),
            ProxyError::PoolExhausted => String::from_str("address pool exhausted"),
        }
    }
}

/// A message ends with what it is about: the message of the error inside it,
/// the text it was given, or the number or address that is wrong.
pub proof fn lemma_messages(
    d: DecodeError,
    f: ForwardingError,
    t: String,
    id: u64,
    version: u8,
    prefix_len: u8,
    needed: usize,
    available: usize,
)
    ensures
        decode_text(d).is_suffix_of(proxy_text(ProxyError::Decode(d))),
        forwarding_text(f).is_suffix_of(proxy_text(ProxyError::Forwarding(f))),
        t@.is_suffix_of(proxy_text(ProxyError::Io(t))),
        t@.is_suffix_of(proxy_text(ProxyError::InvalidRequest(t))),
        t@.is_suffix_of(proxy_text(ProxyError::AuthFailed(t))),
        t@.is_suffix_of(proxy_text(ProxyError::Tls(t))),
        t@.is_suffix_of(proxy_text(ProxyError::Quic(t))),
        t@.is_suffix_of(proxy_text(ProxyError::Http(t))),
        t@.is_suffix_of(proxy_text(ProxyError::Config(t))),
        decimal(id as nat).is_suffix_of(proxy_text(ProxyError::SessionNotFound(id))),
        decimal(version as nat).is_suffix_of(decode_text(DecodeError::InvalidIpVersion(version))),
        decimal(version as nat).is_suffix_of(
            decode_text(DecodeError::InvalidPrefixLength { ip_version: version, prefix_len }),
        ),
        decimal(available as nat).is_suffix_of(
            decode_text(DecodeError::BufferTooShort { needed, available }),
        ),
{
    lemma_ends_with("decode error: "@, decode_text(d));
    lemma_ends_with("forwarding error: "@, forwarding_text(f));
    lemma_ends_with("I/O error: "@, t@);
    lemma_ends_with("invalid CONNECT-IP request: "@, t@);
    lemma_ends_with("authentication failed: "@, t@);
    lemma_ends_with("TLS error: "@, t@);
    lemma_ends_with("QUIC error: "@, t@);
    lemma_ends_with("HTTP/3 error: "@, t@);
    lemma_ends_with("configuration error: "@, t@);
    lemma_ends_with("session not found: "@, decimal(id as nat));
    lemma_ends_with("invalid IP version: "@, decimal(version as nat));
    lemma_ends_with(
        "invalid prefix length "@ + decimal(prefix_len as nat) + " for IPv"@,
        decimal(version as nat),
    );
    lemma_ends_with(
        "buffer too short: need "@ + decimal(needed as nat) + " bytes, have "@,
        decimal(available as nat),
    );
}

proof fn lemma_ends_with(a: Seq<char>, b: Seq<char>)
    ensures
        b.is_suffix_of(a + b),
{
    assert((a + b).subrange((a + b).len() - b.len(), (a + b).len() as int) =~= b);
}

} // verus!
