//! Peer-to-peer direct path.
//!
//! Two strawcat peers that would otherwise hairpin through a relay form a
//! direct, end-to-end-encrypted QUIC connection instead, keeping the relay as
//! rendezvous and fallback.

pub mod candidates;
pub mod holepunch;
pub mod identity;
pub mod inner_tls;
pub mod native_punch;
pub mod peer;
pub mod portmap;
pub mod predict;
pub mod punch;
pub mod relay_socket;
pub mod session;
pub mod strategy;
pub mod stun;
pub mod token;
pub mod vpn;
pub mod wire;
