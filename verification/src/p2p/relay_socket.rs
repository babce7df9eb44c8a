//! What an inner-QUIC transport over a CONNECT-UDP bind session decides.
//!
//! The peer-to-peer inner connection runs on one socket that carries two
//! paths: the relay path, where each inner packet is a bind datagram addressed
//! to the far peer's relay-public address (`paddr`), and a direct path over a
//! real UDP socket. The relay forwards ciphertext it cannot read.
//!
//! Sends are routed by destination ([`RelayRoutes`]): an address known to be a
//! *relay* remote is tunnelled; **everything else goes out the real socket**.
//! Direct-by-default is what lets NAT-traversal probes, which target peer
//! candidates the application never sees, leave over the real socket.
//!
//! A bind session serves exactly **one** peer, so there is exactly one relay
//! remote: the dialer presets it and learns nothing further, the acceptor
//! learns the one source it is answering and then stops listening. That bound
//! is the security property, not an optimisation. The relay's bind socket is a
//! public UDP port that accepts from anyone, and it forwards what arrives;
//! without the bound, any spoofed source would be added to the tunnel route,
//! and a later probe aimed at that address would ride the relay instead of the
//! real socket.

use bytes::Bytes;
use vstd::prelude::*;

use crate::buf::{append, buffered, freeze, frozen, frozen_slice, new_buffer};
use crate::capsule::codec::{lemma_varint_bytes, varint_bytes, write_varint, VARINT_MAX};
use crate::codepoints::CAPSULE_COMPRESSION_CLOSE;
use crate::error::ProxyError;
use crate::net::SocketAddr;
use crate::udp_bind::{
    active_binding, addr_bytes, bound_datagram, context_capsule, encode_context_capsule,
    first_active, has_id, lemma_active_id, lemma_addr_len, lemma_close_keeps, lemma_wf_prefix,
    table_wf, without, Binding, CompressionAssign, ContextError, ContextTable, Entry,
};

verus! {

/// The context that carries packets to an address: a compressed one bound to
/// it if there is one, otherwise the uncompressed one.
pub open spec fn carrier(s: Seq<Entry>, dst: SocketAddr) -> Option<u64> {
    match first_active(s, Binding::Compressed(dst)) {
        Some(id) => Some(id),
        None => first_active(s, Binding::Uncompressed),
    }
}

/// One inner packet to `dst` as a bind datagram on session `qsid`, if a
/// context can carry it.
pub open spec fn bind_frame(
    qsid: u64,
    s: Seq<Entry>,
    dst: SocketAddr,
    contents: Seq<u8>,
) -> Option<Seq<u8>> {
    match carrier(s, dst) {
        None => None,
        Some(id) => match bound_datagram(s, id, dst, contents) {
            Ok(body) => Some(varint_bytes(qsid) + body),
            Err(_) => None,
        },
    }
}

/// The contents of a frame.
pub open spec fn frame_view(r: Option<Bytes>) -> Option<Seq<u8>> {
    match r {
        Some(b) => Some(frozen(b)),
        None => None,
    }
}

/// Encode one inner packet to `dst` as a bind datagram on session `qsid`.
///
/// The framing is whatever the context table can carry: a compressed context
/// bound to `dst` if one is active (the post-lockdown steady state),
/// otherwise the uncompressed context that spells the address out. `None`
/// means neither exists — after lockdown that is the correct answer for any
/// destination but the peer, and the packet is dropped rather than leaked.
pub fn frame_bind(qsid: u64, contexts: &ContextTable, dst: SocketAddr, contents: &[u8]) -> (r:
    Option<Bytes>)
    requires
        contexts.wf(),
        qsid <= VARINT_MAX,
        contents@.len() + 128 <= isize::MAX,
    ensures
        frame_view(r) == bind_frame(qsid, contexts@, dst, contents@),
{
    let id: u64 = match contexts.compressed_context_for(dst) {
        Some(id) => id,
        None => match contexts.uncompressed_context() {
            Some(id) => id,
            None => {
                return None;
            },
        },
    };
    let body = match contexts.encode_datagram(id, dst, contents) {
        Ok(b) => b,
        Err(_) => {
            return None;
        },
    };
    proof {
        lemma_carried(contexts@, dst);
        lemma_active_id(contexts@, id);
        lemma_varint_bytes(qsid);
        lemma_varint_bytes(id);
        lemma_addr_len(dst);
    }
    let b = frozen_slice(&body);
    let mut wire = new_buffer();
    let _ = write_varint(&mut wire, qsid);
    append(&mut wire, b);
    proof {
        assert(buffered(wire) =~= varint_bytes(qsid) + b@);
    }
    Some(freeze(wire))
}

proof fn lemma_first_is_bound(s: Seq<Entry>, b: Binding)
    requires
        table_wf(s),
    ensures
        first_active(s, b) matches Some(id) ==> active_binding(s, id) == Some(b) && has_id(s, id),
    decreases s.len(),
{
    if s.len() > 0 {
        let d = s.drop_last();
        lemma_wf_prefix(s);
        lemma_first_is_bound(d, b);
        if let Some(id) = first_active(s, b) {
            if first_active(d, b) is Some {
                let i = choose|i: int| 0 <= i < d.len() && (#[trigger] d[i]).id == id;
                assert(s[i].id == id);
            } else {
                assert(s[s.len() - 1].id == id);
                lemma_no_binding(d, id);
            }
        }
    }
}

proof fn lemma_no_binding(d: Seq<Entry>, id: u64)
    requires
        forall|i: int| 0 <= i < d.len() ==> (#[trigger] d[i]).id != id,
    ensures
        active_binding(d, id) is None,
    decreases d.len(),
{
    if d.len() > 0 {
        assert(d[d.len() - 1].id != id);
        assert forall|i: int| 0 <= i < d.drop_last().len() implies (
        #[trigger] d.drop_last()[i]).id != id by {
            assert(d[i].id != id);
        }
        lemma_no_binding(d.drop_last(), id);
    }
}

/// A packet can be framed exactly when a context carries its destination, and
/// a compressed context elides the address: its frame is the uncompressed one
/// without it.
pub proof fn lemma_carried(s: Seq<Entry>, dst: SocketAddr)
    requires
        table_wf(s),
    ensures
        forall|qsid: u64, contents: Seq<u8>|
            (#[trigger] bind_frame(qsid, s, dst, contents)) is Some <==> carrier(s, dst) is Some,
        forall|qsid: u64, contents: Seq<u8>|
            #![trigger bind_frame(qsid, s, dst, contents)]
            match first_active(s, Binding::Compressed(dst)) {
                Some(id) => bind_frame(qsid, s, dst, contents) == Some(
                    varint_bytes(qsid) + (varint_bytes(id) + contents),
                ),
                None => match first_active(s, Binding::Uncompressed) {
                    Some(id) => bind_frame(qsid, s, dst, contents) == Some(
                        varint_bytes(qsid) + (varint_bytes(id) + addr_bytes(dst) + contents),
                    ),
                    None => bind_frame(qsid, s, dst, contents) is None,
                },
            },
        carrier(s, dst) matches Some(id) ==> active_binding(s, id) is Some,
{
    lemma_first_is_bound(s, Binding::Compressed(dst));
    lemma_first_is_bound(s, Binding::Uncompressed);
}

/// Where packets go: one destination through the relay, all others out the
/// real socket.
#[derive(Debug)]
pub struct RelayRoutes {
    remote: Option<SocketAddr>,
}

impl RelayRoutes {
    /// The peer's relay-facing address, once one is known.
    pub closed spec fn spec_peer(self) -> Option<SocketAddr> {
        self.remote
    }

    /// A dialer presets its peer; an acceptor starts without one.
    pub fn new(relay_peer: Option<SocketAddr>) -> (r: Self)
        ensures
            r.spec_peer() == relay_peer,
    {
        RelayRoutes { remote: relay_peer }
    }

    /// The peer's relay-facing address, once one is known.
    pub fn peer(&self) -> (p: Option<SocketAddr>)
        ensures
            p == self.spec_peer(),
    {
        self.remote
    }

    /// Whether packets to `dst` are tunnelled.
    pub fn via_relay(&self, dst: SocketAddr) -> (v: bool)
        ensures
            v == (self.spec_peer() == Some(dst)),
    {
        match self.remote {
            Some(a) => a == dst,
            None => false,
        }
    }

    /// A datagram arrived from `src` through the relay: reply to a tunnelled
    /// source through the tunnel. Only the first source is learned. Says
    /// whether this one was.
    pub fn learn(&mut self, src: SocketAddr) -> (learned: bool)
        ensures
            learned == old(self).spec_peer() is None,
            final(self).spec_peer() == (if old(self).spec_peer() is None {
                Some(src)
            } else {
                old(self).spec_peer()
            }),
    {
        if self.remote.is_none() {
            self.remote = Some(src);
            true
        } else {
            false
        }
    }
}

/// What `learn` leaves as the peer.
pub open spec fn learned_peer(peer: Option<SocketAddr>, src: SocketAddr) -> Option<SocketAddr> {
    if peer is None {
        Some(src)
    } else {
        peer
    }
}

/// What a run of sources leaves as the peer.
pub open spec fn peer_after(peer: Option<SocketAddr>, sources: Seq<SocketAddr>) -> Option<
    SocketAddr,
>
    decreases sources.len(),
{
    if sources.len() == 0 {
        peer
    } else {
        learned_peer(peer_after(peer, sources.drop_last()), sources.last())
    }
}

/// Once a peer is known, no run of sources captures the route; an acceptor is
/// bound to the first source it heard.
pub proof fn lemma_route_not_captured(peer: Option<SocketAddr>, sources: Seq<SocketAddr>)
    ensures
        peer is Some ==> peer_after(peer, sources) == peer,
        peer is None && sources.len() > 0 ==> peer_after(peer, sources) == Some(sources[0]),
    decreases sources.len(),
{
    if sources.len() > 0 {
        lemma_route_not_captured(peer, sources.drop_last());
        if sources.len() > 1 {
            assert(sources.drop_last()[0] == sources[0]);
        }
    }
}

/// Where a packet leaves.
#[derive(Debug)]
pub enum Outgoing {
    /// Through the relay, as this datagram.
    Tunnel(Bytes),
    /// Out the real socket.
    Direct,
    /// Nowhere: no relay context can carry it.
    Dropped,
}

/// Route one inner packet: to the relay remote through the tunnel, and to
/// everyone else — including NAT-traversal probes to peer candidates the
/// application never sees — out the real socket.
pub fn route_packet(
    routes: &RelayRoutes,
    qsid: u64,
    contexts: &ContextTable,
    dst: SocketAddr,
    contents: &[u8],
) -> (o: Outgoing)
    requires
        contexts.wf(),
        qsid <= VARINT_MAX,
        contents@.len() + 128 <= isize::MAX,
    ensures
        if routes.spec_peer() == Some(dst) {
            match bind_frame(qsid, contexts@, dst, contents@) {
                Some(wire) => o matches Outgoing::Tunnel(b) && frozen(b) == wire,
                None => o is Dropped,
            }
        } else {
            o is Direct
        },
{
    if routes.via_relay(dst) {
        match frame_bind(qsid, contexts, dst, contents) {
            Some(wire) => Outgoing::Tunnel(wire),
            None => Outgoing::Dropped,
        }
    } else {
        Outgoing::Direct
    }
}

/// Why draining a source stopped.
#[derive(Debug, Clone, Copy, PartialEq, Eq, Structural)]
pub enum DrainEnd {
    /// Every buffer is filled.
    Full,
    /// Nothing more is ready.
    Pending,
    /// The relay session is closed.
    Closed,
}

/// What a poll for inbound packets says.
#[derive(Debug, Clone, Copy, PartialEq, Eq, Structural)]
pub enum Polled {
    /// This many packets were delivered.
    Ready(usize),
    /// Nothing yet.
    Pending,
    /// The relay session is closed.
    Broken,
}

/// Deliver whatever is ready: a poll blocks, or reports a closed session, only
/// when nothing is.
pub fn polled(delivered: usize, end: DrainEnd) -> (p: Polled)
    ensures
        p == (if delivered > 0 || end == DrainEnd::Full {
            Polled::Ready(delivered)
        } else if end == DrainEnd::Closed {
            Polled::Broken
        } else {
            Polled::Pending
        }),
{
    if delivered > 0 {
        return Polled::Ready(delivered);
    }
    match end {
        DrainEnd::Full => Polled::Ready(delivered),
        DrainEnd::Closed => Polled::Broken,
        DrainEnd::Pending => Polled::Pending,
    }
}

/// A handle to the combined-transport socket: the local direct socket's bound
/// address, for candidate gathering by the punch.
#[derive(Debug, Clone, Copy)]
pub struct PathMuxHandle {
    pub direct_local: SocketAddr,
}

impl PathMuxHandle {
    /// The direct socket's local bound address.
    pub fn direct_local(&self) -> (a: SocketAddr)
        ensures
            a == self.direct_local,
    {
        self.direct_local
    }
}

/// How long to wait for the relay's COMPRESSION_ACK before giving up and
/// leaving the uncompressed context open.
pub const ACK_TIMEOUT_MS: u64 = 5_000;

/// How far a lockdown has come.
#[derive(Debug, Clone, Copy, PartialEq, Eq, Structural)]
pub enum LockdownStage {
    /// The COMPRESSION_ASSIGN capsule is being queued.
    Assigning,
    /// Waiting for the relay to acknowledge the compressed context.
    Waiting,
    /// The COMPRESSION_CLOSE capsule is being queued.
    Closing,
}

/// What a lockdown asks for next.
#[derive(Debug)]
pub enum LockdownStep {
    /// The relay path is locked down to this peer.
    Engaged(SocketAddr),
    /// Queue this capsule on the request stream.
    Queue(Bytes),
    /// Wait for the next acknowledgement.
    AwaitAck,
}

/// What happened to what a lockdown asked for.
#[derive(Debug)]
pub enum LockdownEvent {
    /// The capsule was queued.
    Queued,
    /// The capsule could not be queued.
    QueueFailed(String),
    /// The relay acknowledged some context.
    Acked,
    /// No acknowledgement came in time.
    TimedOut,
}

/// The relay lockdown: once a direct path carries the traffic, bind the peer
/// to a *compressed* context and close the uncompressed one.
///
/// The point is the relay's edge. Its bind port is public and forwards what
/// arrives; while an uncompressed context is open, anything that reaches that
/// port is forwarded to us as an inner-QUIC packet to parse. With only a
/// compressed context registered, the relay drops everything that is not from
/// the bound peer, before it ever reaches us.
///
/// The relay path itself is *not* closed — it stays as the permanent fallback.
/// Lockdown only narrows what may travel it, so a later fallback still works,
/// now with the address elided from every datagram.
///
/// Ordering matters and is not an accident: the compressed context has to be
/// *acknowledged* before the uncompressed one goes, or a fallback in that
/// window would have no context able to carry it and the relay path would
/// silently blackhole. On timeout it leaves everything as it was — an open
/// uncompressed context is a wider attack surface, not a broken session.
#[derive(Debug)]
pub struct RelayLockdown {
    pub peer: SocketAddr,
    pub assign_id: u64,
    pub uncompressed: u64,
    pub stage: LockdownStage,
}

/// The context of the peer that is about to be registered.
pub open spec fn pending(id: u64, peer: SocketAddr) -> Entry {
    Entry { id, binding: Binding::Compressed(peer), active: false }
}

/// The outcome of registering a compressed context for the peer.
pub open spec fn begins(
    s: Seq<Entry>,
    peer: SocketAddr,
    uncompressed: u64,
    t: Seq<Entry>,
    r: Result<(Option<RelayLockdown>, LockdownStep), ProxyError>,
) -> bool {
    let id = (uncompressed + 2) as u64;
    if id > VARINT_MAX {
        t == s && (r matches Err(ProxyError::InvalidRequest(e)) && e@ == ContextError::OutOfRange(
            id,
        ).text())
    } else if has_id(s, id) {
        t == s && (r matches Err(ProxyError::InvalidRequest(e)) && e@ == ContextError::Duplicate(
            id,
        ).text())
    } else {
        &&& t == s.push(pending(id, peer))
        &&& r matches Ok((Some(l), LockdownStep::Queue(capsule)))
        &&& l == (RelayLockdown {
            peer,
            assign_id: id,
            uncompressed,
            stage: LockdownStage::Assigning,
        })
        &&& frozen(capsule) == (CompressionAssign {
            context_id: id,
            binding: Binding::Compressed(peer),
        }).wire()
    }
}

/// What engaging the lockdown makes of the contexts.
pub open spec fn engages(
    peer: Option<SocketAddr>,
    s: Seq<Entry>,
    t: Seq<Entry>,
    r: Result<(Option<RelayLockdown>, LockdownStep), ProxyError>,
) -> bool {
    match peer {
        None => (r matches Err(ProxyError::InvalidRequest(e)) && e@
            == "no relay remote learned; nothing to bind a context to"@) && t == s,
        Some(p) => if first_active(s, Binding::Compressed(p)) is Some {
            r == Ok::<(Option<RelayLockdown>, LockdownStep), ProxyError>(
                (None, LockdownStep::Engaged(p)),
            ) && t == s
        } else {
            match first_active(s, Binding::Uncompressed) {
                None => (r matches Err(ProxyError::InvalidRequest(e)) && e@
                    == "uncompressed context already closed"@) && t == s,
                Some(u) => begins(s, p, u, t, r),
            }
        },
    }
}

impl RelayLockdown {
    /// The ids are those of contexts.
    pub open spec fn wf(self) -> bool {
        self.assign_id <= VARINT_MAX && self.uncompressed <= VARINT_MAX
    }

    /// What an event makes of the lockdown and of the contexts.
    pub open spec fn moves(
        self,
        s: Seq<Entry>,
        event: LockdownEvent,
        next: Self,
        t: Seq<Entry>,
        r: Result<LockdownStep, ProxyError>,
    ) -> bool {
        match (self.stage, event) {
            (LockdownStage::Assigning, LockdownEvent::Queued) | (
                LockdownStage::Waiting,
                LockdownEvent::Acked,
            ) => t == s && self.waits(
                s,
                next,
                r,
            ),
            (LockdownStage::Waiting, LockdownEvent::TimedOut) => {
                &&& t == without(s, self.assign_id)
                &&& next == self
                &&& r matches Err(ProxyError::InvalidRequest(e)) && e@
                    == "relay did not acknowledge the compressed context"@
            },
            (LockdownStage::Closing, LockdownEvent::Queued) => {
                &&& t == without(s, self.uncompressed)
                &&& next == self
                &&& r == Ok::<LockdownStep, ProxyError>(LockdownStep::Engaged(self.peer))
            },
            (LockdownStage::Assigning, LockdownEvent::QueueFailed(e)) | (
                LockdownStage::Closing,
                LockdownEvent::QueueFailed(e),
            ) => {
                &&& t == s
                &&& next == self
                &&& r matches Err(ProxyError::InvalidRequest(t)) && t@ == "capsule queue: "@
                    + e@
            },
            _ => {
                &&& t == s
                &&& next == self
                &&& r == Ok::<LockdownStep, ProxyError>(LockdownStep::AwaitAck)
            },
        }
    }

    /// Begin the lockdown: register a compressed context for the peer, whose
    /// capsule is to be queued. Nothing is left to do if the peer already has
    /// one.
    pub fn engage(peer: Option<SocketAddr>, contexts: &mut ContextTable) -> (r: Result<
        (Option<Self>, LockdownStep),
        ProxyError,
    >)
        requires
            old(contexts).wf(),
        ensures
            final(contexts).wf(),
            r matches Ok((Some(l), _)) ==> l.wf(),
            engages(peer, old(contexts)@, final(contexts)@, r),
    {
        let peer = match peer {
            Some(p) => p,
            None => {
                return Err(
                    ProxyError::InvalidRequest(
                        String::from_str("no relay remote learned; nothing to bind a context to"),
                    ),
                );
            },
        };
        if contexts.compressed_context_for(peer).is_some() {
            return Ok((None, LockdownStep::Engaged(peer)));
        }
        let uncompressed: u64 = match contexts.uncompressed_context() {
            Some(u) => u,
            None => {
                return Err(
                    ProxyError::InvalidRequest(
                        String::from_str("uncompressed context already closed"),
                    ),
                );
            },
        };
        proof {
            lemma_first_is_bound(contexts@, Binding::Uncompressed);
            lemma_active_id(contexts@, uncompressed);
        }
        // Client-allocated ids are even (RFC 9297 §3.2).
        let id: u64 = uncompressed + 2;
        let assign = CompressionAssign { context_id: id, binding: Binding::Compressed(peer) };
        match contexts.register(assign) {
            Err(e) => Err(ProxyError::InvalidRequest(e.message())),
            Ok(()) => {
                let mut buf = new_buffer();
                assign.encode(&mut buf);
                proof {
                    assert(buffered(buf) =~= assign.wire());
                }
                Ok(
                    (
                        Some(
                            RelayLockdown {
                                peer,
                                assign_id: id,
                                uncompressed,
                                stage: LockdownStage::Assigning,
                            },
                        ),
                        LockdownStep::Queue(freeze(buf)),
                    ),
                )
            },
        }
    }

    /// The relay has acknowledged the compressed context.
    pub open spec fn acknowledged(self, s: Seq<Entry>) -> bool {
        active_binding(s, self.assign_id) is Some
    }

    /// What a lockdown that waits asks for: to close the uncompressed context
    /// once the compressed one is acknowledged, and otherwise to wait on.
    pub open spec fn waits(self, s: Seq<Entry>, next: Self, r: Result<LockdownStep, ProxyError>) -> bool {
        if self.acknowledged(s) {
            &&& next == (RelayLockdown { stage: LockdownStage::Closing, ..self })
            &&& r matches Ok(LockdownStep::Queue(capsule)) && frozen(capsule) == context_capsule(
                CAPSULE_COMPRESSION_CLOSE,
                self.uncompressed,
                Seq::empty(),
            )
        } else {
            &&& next == (RelayLockdown { stage: LockdownStage::Waiting, ..self })
            &&& r == Ok::<LockdownStep, ProxyError>(LockdownStep::AwaitAck)
        }
    }

    fn wait(&mut self, contexts: &ContextTable) -> (r: Result<LockdownStep, ProxyError>)
        requires
            old(self).wf(),
        ensures
            final(self).wf(),
            old(self).waits(contexts@, *final(self), r),
    {
        if contexts.binding(self.assign_id).is_some() {
            self.stage = LockdownStage::Closing;
            let mut buf = new_buffer();
            encode_context_capsule(CAPSULE_COMPRESSION_CLOSE, self.uncompressed, &mut buf);
            proof {
                assert(buffered(buf) =~= context_capsule(
                    CAPSULE_COMPRESSION_CLOSE,
                    self.uncompressed,
                    Seq::empty(),
                ));
            }
            Ok(LockdownStep::Queue(freeze(buf)))
        } else {
            self.stage = LockdownStage::Waiting;
            Ok(LockdownStep::AwaitAck)
        }
    }

    /// Take in what happened. The uncompressed context is closed only once
    /// the compressed one is acknowledged and the relay has been told; an
    /// event that does not belong to the stage changes nothing.
    pub fn on(&mut self, contexts: &mut ContextTable, event: LockdownEvent) -> (r: Result<
        LockdownStep,
        ProxyError,
    >)
        requires
            old(self).wf(),
            old(contexts).wf(),
        ensures
            final(self).wf(),
            final(contexts).wf(),
            old(self).moves(old(contexts)@, event, *final(self), final(contexts)@, r),
    {
        match (self.stage, event) {
            (LockdownStage::Assigning, LockdownEvent::Queued) | (
                LockdownStage::Waiting,
                LockdownEvent::Acked,
            ) => self.wait(contexts),
            (LockdownStage::Waiting, LockdownEvent::TimedOut) => {
                contexts.close(self.assign_id);
                Err(
                    ProxyError::InvalidRequest(
                        String::from_str("relay did not acknowledge the compressed context"),
                    ),
                )
            },
            (LockdownStage::Closing, LockdownEvent::Queued) => {
                contexts.close(self.uncompressed);
                Ok(LockdownStep::Engaged(self.peer))
            },
            (LockdownStage::Assigning, LockdownEvent::QueueFailed(e)) | (
                LockdownStage::Closing,
                LockdownEvent::QueueFailed(e),
            ) => Err(
                ProxyError::InvalidRequest(String::from_str("capsule queue: ").concat(e.as_str())),
            ),
            _ => Ok(LockdownStep::AwaitAck),
        }
    }
}

/// After the lockdown the relay path keeps working for the peer, with the
/// address elided, and carries nothing to any address without a context of
/// its own.
pub proof fn lemma_lockdown(s: Seq<Entry>, uncompressed: u64, peer: SocketAddr, other: SocketAddr)
    requires
        table_wf(s),
        first_active(s, Binding::Compressed(peer)) is Some,
        first_active(s, Binding::Compressed(peer)) != Some(uncompressed),
        first_active(without(s, uncompressed), Binding::Uncompressed) is None,
        first_active(s, Binding::Compressed(other)) is None,
    ensures
        carrier(without(s, uncompressed), peer) == first_active(s, Binding::Compressed(peer)),
        carrier(without(s, uncompressed), other) is None,
        forall|qsid: u64, contents: Seq<u8>|
            (#[trigger] bind_frame(qsid, without(s, uncompressed), other, contents)) is None,
{
    lemma_close_keeps(s, uncompressed, Binding::Compressed(peer));
    lemma_close_keeps(s, uncompressed, Binding::Compressed(other));
}

/// The relay path never blackholes: while the compressed context is not
/// acknowledged, registering it, or giving it up again, leaves every
/// destination the context it had.
pub proof fn lemma_lockdown_attempt_harmless(s: Seq<Entry>, id: u64, peer: SocketAddr, dst: SocketAddr)
    requires
        table_wf(s),
        id <= VARINT_MAX,
        !has_id(s, id),
    ensures
        carrier(s.push(pending(id, peer)), dst) == carrier(s, dst),
        carrier(without(s.push(pending(id, peer)), id), dst) == carrier(s, dst),
{
    let t = s.push(pending(id, peer));
    assert(t.drop_last() =~= s);
    lemma_without_absent(s, id);
}

proof fn lemma_without_absent(s: Seq<Entry>, id: u64)
    requires
        !has_id(s, id),
    ensures
        without(s, id) == s,
    decreases s.len(),
{
    if s.len() > 0 {
        let d = s.drop_last();
        assert(s[s.len() - 1].id != id);
        assert(!has_id(d, id)) by {
            if has_id(d, id) {
                let i = choose|i: int| 0 <= i < d.len() && (#[trigger] d[i]).id == id;
                assert(s[i].id == id);
            }
        }
        lemma_without_absent(d, id);
        assert(d.push(s.last()) =~= s);
    } else {
        assert(without(s, id) =~= s);
    }
}

/// Engaging the lockdown registers one context for the peer, two above the
/// uncompressed one and not usable yet, and asks the relay for it; it is
/// refused, with nothing changed, exactly if that number is taken or too large.
pub proof fn lemma_lockdown_begins(
    s: Seq<Entry>,
    peer: SocketAddr,
    uncompressed: u64,
    t: Seq<Entry>,
    r: Result<(Option<RelayLockdown>, LockdownStep), ProxyError>,
)
    requires
        uncompressed <= VARINT_MAX,
        begins(s, peer, uncompressed, t, r),
    ensures
        r is Ok <==> uncompressed + 2 <= VARINT_MAX && forall|i: int|
            0 <= i < s.len() ==> (#[trigger] s[i]).id != uncompressed + 2,
        r is Err ==> t == s,
        r matches Ok((l, step)) ==> {
            &&& t.len() == s.len() + 1
            &&& s.is_prefix_of(t)
            &&& t.last().id == uncompressed + 2
            &&& t.last().binding == Binding::Compressed(peer)
            &&& !t.last().active
            &&& l matches Some(l) && l.peer == peer && l.assign_id == uncompressed + 2
                && l.uncompressed == uncompressed && l.stage == LockdownStage::Assigning
            &&& step matches LockdownStep::Queue(c) && frozen(c) == varint_bytes(0x11)
                + varint_bytes(
                (varint_bytes((uncompressed + 2) as u64).len() + addr_bytes(peer).len()) as u64,
            ) + varint_bytes((uncompressed + 2) as u64) + addr_bytes(peer)
        },
{
    let id = (uncompressed + 2) as u64;
    crate::udp_bind::lemma_assign_layout(
        CompressionAssign { context_id: id, binding: Binding::Compressed(peer) },
    );
    if r is Ok {
        assert(t.take(s.len() as int) =~= s);
        assert forall|i: int| 0 <= i < s.len() implies (#[trigger] s[i]).id != uncompressed + 2 by {
            assert(!has_id(s, id));
        }
    }
}

/// Once the peer's context is acknowledged the uncompressed one is closed at
/// the relay; before that the lockdown waits.
pub proof fn lemma_lockdown_waits(
    l: RelayLockdown,
    s: Seq<Entry>,
    next: RelayLockdown,
    r: Result<LockdownStep, ProxyError>,
)
    requires
        l.waits(s, next, r),
    ensures
        next.peer == l.peer,
        next.assign_id == l.assign_id,
        next.uncompressed == l.uncompressed,
        active_binding(s, l.assign_id) is Some ==> next.stage == LockdownStage::Closing && (
        r matches Ok(LockdownStep::Queue(c)) && frozen(c) == varint_bytes(0x13) + varint_bytes(
            varint_bytes(l.uncompressed).len() as u64,
        ) + varint_bytes(l.uncompressed)),
        active_binding(s, l.assign_id) is None ==> next.stage == LockdownStage::Waiting && r == Ok::<
            LockdownStep,
            ProxyError,
        >(LockdownStep::AwaitAck),
{
    assert(varint_bytes(l.uncompressed) + Seq::<u8>::empty() =~= varint_bytes(l.uncompressed));
}

/// Engaging the lockdown needs a peer. Where the peer has a usable context it
/// is engaged already; else one is registered, which needs a usable
/// uncompressed context to go by.
pub proof fn lemma_engages(
    peer: Option<SocketAddr>,
    s: Seq<Entry>,
    t: Seq<Entry>,
    r: Result<(Option<RelayLockdown>, LockdownStep), ProxyError>,
)
    requires
        engages(peer, s, t, r),
    ensures
        peer is None ==> r is Err && t == s,
        peer matches Some(p) ==> (first_active(s, Binding::Compressed(p)) is Some ==> t == s && r
            == Ok::<(Option<RelayLockdown>, LockdownStep), ProxyError>(
            (None, LockdownStep::Engaged(p)),
        )),
        peer matches Some(p) ==> (first_active(s, Binding::Compressed(p)) is None && first_active(
            s,
            Binding::Uncompressed,
        ) is None ==> r is Err && t == s),
        peer matches Some(p) ==> (first_active(s, Binding::Compressed(p)) is None ==> (first_active(
            s,
            Binding::Uncompressed,
        ) matches Some(u) ==> begins(s, p, u, t, r))),
{
}

/// A lockdown takes the uncompressed context away only when the relay was told
/// to close it, and its own again only when the relay never acknowledged it;
/// nothing else touches the contexts. It is engaged only by that close.
pub proof fn lemma_lockdown_moves(
    l: RelayLockdown,
    s: Seq<Entry>,
    event: LockdownEvent,
    next: RelayLockdown,
    t: Seq<Entry>,
    r: Result<LockdownStep, ProxyError>,
)
    requires
        l.moves(s, event, next, t, r),
    ensures
        next.peer == l.peer,
        next.assign_id == l.assign_id,
        next.uncompressed == l.uncompressed,
        t == if l.stage == LockdownStage::Waiting && event is TimedOut {
            without(s, l.assign_id)
        } else if l.stage == LockdownStage::Closing && event is Queued {
            without(s, l.uncompressed)
        } else {
            s
        },
        (r matches Ok(LockdownStep::Engaged(_))) <==> l.stage == LockdownStage::Closing
            && event is Queued,
        r matches Ok(LockdownStep::Engaged(p)) ==> p == l.peer,
        r is Err <==> (l.stage == LockdownStage::Waiting && event is TimedOut) || (event
            is QueueFailed && l.stage != LockdownStage::Waiting),
        (l.stage == LockdownStage::Assigning && event is Queued) || (l.stage
            == LockdownStage::Waiting && event is Acked) ==> l.waits(s, next, r),
{
}

} // verus!
