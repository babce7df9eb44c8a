//! Provisional wire codepoints.
//!
//! Every straw-provisional codepoint — the CONNECT-UDP-listen compression
//! capsules, the vendor address capsules, the inner ALPN, the capability token
//! marker — is gathered here, so that moving to assigned values is a
//! single-file edit.

use vstd::prelude::*;

verus! {

/// Register a compression context (provisional).
pub const CAPSULE_COMPRESSION_ASSIGN: u64 = 0x11;

/// Acknowledge a registered context (provisional).
pub const CAPSULE_COMPRESSION_ACK: u64 = 0x12;

/// Retire a context (provisional).
pub const CAPSULE_COMPRESSION_CLOSE: u64 = 0x13;

/// The relay's view of the peer's outer source — its server-reflexive
/// candidate.
pub const CAPSULE_OBSERVED_ADDRESS: u64 = 0x14;

/// ALPN for the raw-QUIC inner peer protocol.
pub const ALPN_STRAWCAT: &'static str = "strawcat/1";

/// The only token version this build speaks. The `v` field lets peers of
/// different versions reject each other cleanly.
pub const TOKEN_VERSION: u8 = 2;

/// Human-facing token prefix; base64url CBOR follows it.
pub const TOKEN_PREFIX: &'static str = "sc2_";

/// The base of draft-seemann-quic-nat-traversal's frame range
/// (`ADD_ADDRESS`=`0x3d7e90`, `PUNCH_ME_NOW`, `REMOVE_ADDRESS`, …), which the
/// inner connection's QUIC stack emits.
pub const NAT_TRAVERSAL_FRAME_BASE: u64 = 0x3d7e90;

} // verus!
