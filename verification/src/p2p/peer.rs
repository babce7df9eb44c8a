//! Peer orchestration for the direct path: open a bind session at the relay,
//! then form the inner, SPKI-pinned QUIC connection to the other peer over it.
//!
//! Two roles for the relay path: the token *issuer* listens (inner QUIC
//! server), the token *holder* connects (inner QUIC client). The symmetric
//! role tie-break by SPKI is only needed for hole punching; here
//! listen/connect is unambiguous.

use vstd::prelude::*;

use crate::error::ProxyError;
use crate::net::{IpAddr, Ipv4Addr, Ipv6Addr, SocketAddr};
use crate::text::{push_socket, socket_text};

use super::token::TokenV2;

verus! {

/// MTU of inner QUIC, on every path. Each inner packet is re-encapsulated as
/// one outer QUIC DATAGRAM, so the inner MTU must never exceed what a single
/// outer datagram carries; path-MTU discovery would probe upward and those
/// oversize packets fail to send, stalling the connection after the handshake.
pub const INNER_MTU: u16 = 1200;

/// Keeps an idle pipe, and an idle direct path's NAT binding, alive.
pub const INNER_KEEPALIVE_MS: u64 = 10_000;

/// A relay path and a direct path share one connection.
pub const MAX_PATHS: u32 = 8;

/// How many candidate addresses each side may advertise to the other. A peer
/// offers its reflexive candidate and, with `--port-map`, a mapped one; the
/// headroom covers host candidates and future strategies.
pub const MAX_NAT_ADDRESSES: u8 = 8;

/// The socket address that a text spells, or why it spells none.
pub uninterp spec fn socket_of_text(text: Seq<char>) -> Result<SocketAddr, Seq<char>>;

/// The view of a socket address, or of a reason.
pub open spec fn socket_view(r: Result<SocketAddr, String>) -> Result<SocketAddr, Seq<char>> {
    match r {
        Ok(a) => Ok(a),
        Err(e) => Err(e@),
    }
}

/// `FromStr` of a socket address: the result depends on the text alone.
#[verifier::external_body]
fn parse_socket(text: &str) -> (r: Result<SocketAddr, String>)
    ensures
        socket_view(r) == socket_of_text(text@),
{
    match text.parse() {
        Ok(core::net::SocketAddr::V4(a)) => Ok(
            SocketAddr::new(IpAddr::V4(Ipv4Addr { bits: (*a.ip()).into() }), a.port()),
        ),
        Ok(core::net::SocketAddr::V6(a)) => Ok(
            SocketAddr {
                ip: IpAddr::V6(Ipv6Addr { bits: (*a.ip()).into() }),
                port: a.port(),
                flowinfo: a.flowinfo(),
                scope_id: a.scope_id(),
            },
        ),
        Err(e) => Err(e.to_string()),
    }
}

/// Where the issuer of a token is reached through the relay: the first of the
/// token's addresses.
pub fn issuer_addr(token: &TokenV2) -> (r: Result<SocketAddr, ProxyError>)
    ensures
        if token.paddr@.len() == 0 {
            r matches Err(ProxyError::InvalidRequest(t)) && t@ == "token carries no paddr"@
        } else {
            match socket_of_text(token.paddr@[0]@) {
                Ok(a) => r == Ok::<SocketAddr, ProxyError>(a),
                Err(why) => r matches Err(ProxyError::InvalidRequest(t)) && t@
                    == "token paddr invalid: "@ + why,
            }
        },
{
    if token.paddr.len() == 0 {
        return Err(ProxyError::InvalidRequest(String::from_str("token carries no paddr")));
    }
    match parse_socket(token.paddr[0].as_str()) {
        Ok(a) => Ok(a),
        Err(e) => Err(
            ProxyError::InvalidRequest(
                String::from_str("token paddr invalid: ").concat(e.as_str()),
            ),
        ),
    }
}

/// The relay endpoint that a token names.
pub fn relay_url(relay: SocketAddr) -> (s: String)
    ensures
        s@ == "h3://"@ + socket_text(relay),
{
    let mut s = String::from_str("h3://");
    push_socket(&mut s, relay);
    s
}

/// Refuse a token that has expired.
pub fn check_fresh(token: &TokenV2, now_unix_secs: u64) -> (r: Result<(), ProxyError>)
    ensures
        if now_unix_secs >= token.exp {
            r matches Err(ProxyError::InvalidRequest(t)) && t@ == "token has expired"@
        } else {
            r is Ok
        },
{
    if token.is_expired(now_unix_secs) {
        Err(ProxyError::InvalidRequest(String::from_str("token has expired")))
    } else {
        Ok(())
    }
}

} // verus!
