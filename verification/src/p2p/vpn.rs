//! Peer-to-peer VPN mode — the RFC 9484 CONNECT-IP stack run over an
//! established strawcat peer connection.
//!
//! The listener peer is the tunnel **server**: it assigns the connector an
//! address from a small subnet, stands up a local TUN device and the
//! forwarding engine, and runs the ordinary CONNECT-IP handler over the peer
//! connection. The connector is the **client**: it receives its address, and
//! pumps IP packets through its own TUN.

use vstd::prelude::*;

use crate::config::{is_default, ProxyConfig};
use crate::error::ProxyError;
use crate::net::Ipv4Net;
use crate::server::{self, is_fresh, ProxyContext};
use crate::session::auth::AuthMode;

verus! {

/// The `:authority` used for the inner CONNECT-IP request (cosmetic — the
/// peer is already SPKI-authenticated at the inner-TLS layer).
pub const PEER_AUTHORITY: &'static str = "peer";

/// The configuration of a single-tunnel server: `subnet` as its pool, a TUN
/// device, no authentication — the peer is already pinned by inner TLS — and
/// the defaults for the rest.
pub open spec fn is_vpn_config(
    c: ProxyConfig,
    subnet: Ipv4Net,
    tun_name: Seq<char>,
    mtu: u16,
) -> bool {
    exists|base: ProxyConfig, name: String| #[trigger]
        is_default(base) && name@ == tun_name && c == (#[trigger] vpn_over(base, subnet, name, mtu))
}

/// A configuration with the VPN's own values in place of its.
pub open spec fn vpn_over(base: ProxyConfig, subnet: Ipv4Net, tun_name: String, mtu: u16) -> ProxyConfig {
    ProxyConfig {
        ipv4_pool: subnet,
        tun: true,
        tun_name,
        mtu,
        auth_mode: AuthMode::NoAuth,
        ..base
    }
}

/// The configuration of a single-tunnel server.
pub fn vpn_config(subnet: Ipv4Net, tun_name: String, mtu: u16) -> (c: ProxyConfig)
    ensures
        is_vpn_config(c, subnet, tun_name@, mtu),
        c.ipv6_pool is None,
        c.ipv4_pool == subnet,
        c.auth_basic@.len() == 0,
{
    let mut c = ProxyConfig::default();
    let ghost base = c;
    let ghost name = tun_name;
    c.ipv4_pool = subnet;
    c.tun = true;
    c.tun_name = tun_name;
    c.mtu = mtu;
    c.auth_mode = AuthMode::NoAuth;
    proof {
        assert(c == vpn_over(base, subnet, name, mtu));
        assert(is_default(base));
    }
    c
}

/// Assemble a minimal single-tunnel proxy context: an address pool over
/// `subnet`, a TUN device, and a forwarding engine.
pub fn build_context(subnet: Ipv4Net, tun_name: String, mtu: u16) -> (r: Result<
    ProxyContext,
    ProxyError,
>)
    requires
        subnet.spec_network() < u32::MAX,
    ensures
        r matches Ok(ctx) && is_vpn_config(ctx.config, subnet, tun_name@, mtu) && is_fresh(
            ctx,
            ctx.config,
        ),
{
    server::build_context(vpn_config(subnet, tun_name, mtu))
}

/// The MTU of the client's TUN device: the operator's override, or the
/// largest IP packet that fits one QUIC DATAGRAM now.
pub fn client_mtu(chosen: Option<u16>, max_packet: Option<usize>) -> (r: Result<u16, ProxyError>)
    ensures
        match chosen {
            Some(m) => r == Ok::<u16, ProxyError>(m),
            None => if max_packet is Some && max_packet->0 <= u16::MAX {
                r == Ok::<u16, ProxyError>(max_packet->0 as u16)
            } else {
                r matches Err(ProxyError::Config(t)) && t@
                    == "peer did not enable QUIC DATAGRAMs; cannot size the tunnel"@
            },
        },
{
    if let Some(m) = chosen {
        return Ok(m);
    }
    match max_packet {
        Some(m) if m <= 65_535 => Ok(m as u16),
        _ => Err(
            ProxyError::Config(
                String::from_str("peer did not enable QUIC DATAGRAMs; cannot size the tunnel"),
            ),
        ),
    }
}

/// A peer's proxy serves its one subnet through a TUN device of the given name
/// and MTU, to whoever reached it, and is otherwise as built in.
pub proof fn lemma_vpn_config(c: ProxyConfig, subnet: Ipv4Net, tun_name: Seq<char>, mtu: u16)
    requires
        is_vpn_config(c, subnet, tun_name, mtu),
    ensures
        c.ipv4_pool == subnet,
        c.ipv6_pool is None,
        c.tun,
        c.tun_name@ == tun_name,
        c.mtu == mtu,
        c.auth_mode == AuthMode::NoAuth,
        c.split_routes@.len() == 0,
        !c.accept_client_routes,
        c.max_sessions == 1000,
        c.session_idle_timeout_sec == 300,
        c.max_packet_rate == 0,
        c.max_byte_rate == 0,
        c.nat_interface is None,
{
}

} // verus!
