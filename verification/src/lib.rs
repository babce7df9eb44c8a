//! A CONNECT-IP (RFC 9484) proxy core with machine-checked contracts.

pub mod address_pool;
pub mod bigendian;
pub mod buf;
pub mod capsule;
pub mod client;
pub mod clock;
pub mod codepoints;
pub mod config;
pub mod crypto;
pub mod daemon;
pub mod datagram;
pub mod error;
pub mod forwarding;
pub mod iface;
pub mod net;
pub mod p2p;
pub mod server;
pub mod session;
pub mod subnets;
pub mod text;
pub mod tls;
pub mod toolchain;
pub mod udp_bind;
