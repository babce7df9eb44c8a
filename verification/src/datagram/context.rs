//! Context ID management (RFC 9484 §4.7 / RFC 9297 §4).
//!
//! Only Context ID 0 (full IP packet) is in use. The registry exists so
//! future extensions (e.g. compression contexts) slot in without changing
//! the datagram path: unknown context IDs are dropped, not errors.

use std::collections::HashMap;

use vstd::prelude::*;

use crate::datagram::CONTEXT_ID_IP_PACKET;

verus! {

/// Meaning of a registered context ID on one CONNECT-IP stream.
#[derive(Debug, Clone, Copy, PartialEq, Eq, Structural)]
pub enum ContextKind {
    /// Context ID 0: full IP packet.
    IpPacket,
}

/// Per-session registry of negotiated datagram context IDs.
///
/// Context IDs are allocated like stream IDs: the client owns even values,
/// the server odd values (RFC 9297 §4).
#[derive(Debug)]
pub struct ContextRegistry {
    contexts: HashMap<u64, ContextKind>,
}

impl View for ContextRegistry {
    type V = Map<u64, ContextKind>;

    /// The registered contexts.
    closed spec fn view(&self) -> Map<u64, ContextKind> {
        self.contexts@
    }
}

impl ContextRegistry {
    /// A fresh registry with context 0 registered as "IP packet" per RFC 9484.
    pub fn new() -> (r: Self)
        ensures
            r@ == map![CONTEXT_ID_IP_PACKET => ContextKind::IpPacket],
    {
        broadcast use vstd::std_specs::hash::group_hash_axioms;

        let mut contexts: HashMap<u64, ContextKind> = HashMap::new();
        contexts.insert(CONTEXT_ID_IP_PACKET, ContextKind::IpPacket);
        assert(contexts@ =~= map![CONTEXT_ID_IP_PACKET => ContextKind::IpPacket]);
        ContextRegistry { contexts }
    }

    /// Look up a context ID. `None` means unknown: the datagram MUST be
    /// silently dropped (RFC 9297 §4).
    pub fn lookup(&self, context_id: u64) -> (r: Option<ContextKind>)
        ensures
            r == (if self@.dom().contains(context_id) {
                Some(self@[context_id])
            } else {
                None
            }),
    {
        broadcast use vstd::std_specs::hash::group_hash_axioms;

        match self.contexts.get(&context_id) {
            Some(kind) => Some(*kind),
            None => None,
        }
    }

    /// Register a context ID (future extension capsules).
    pub fn register(&mut self, context_id: u64, kind: ContextKind)
        ensures
            final(self)@ == old(self)@.insert(context_id, kind),
    {
        broadcast use vstd::std_specs::hash::group_hash_axioms;

        self.contexts.insert(context_id, kind);
    }
}

impl Default for ContextRegistry {
    fn default() -> (r: Self)
        ensures
            r@ == map![CONTEXT_ID_IP_PACKET => ContextKind::IpPacket],
    {
        ContextRegistry::new()
    }
}

} // verus!
