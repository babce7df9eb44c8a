//! The native-multipath punch: upgrade the single inner connection from the
//! relay path to a **direct** path, in-protocol.
//!
//! Candidates are exchanged by QUIC-layer NAT-traversal frames
//! (draft-seemann-quic-nat-traversal), not by an application message, so one
//! punch driver serves both inner protocols. Roles follow the draft's
//! asymmetry: the inner **server** advertises its candidates and answers
//! probes; the inner **client** learns them, advertises its own and probes the
//! server's, in rounds ([`RoundDriver`]). Both sides then see a validated path
//! with a non-zero id ([`path_outcome`]).

use vstd::prelude::*;

use crate::error::ProxyError;
use crate::net::{IpAddr, SocketAddr};

use super::relay_socket::PathMuxHandle;

verus! {

/// How long to wait for the peer's ADD_ADDRESS before initiating a round. The
/// server advertises as soon as it has the connection, so this only covers the
/// flight; giving up early would waste the whole punch window.
pub const ADDRESS_WAIT_MS: u64 = 3_000;

/// A round's probes are retried with backoff for ~4s; re-initiate at a
/// slightly longer interval so a new round never cancels probes that are still
/// live.
pub const ROUND_INTERVAL_MS: u64 = 5_000;

/// The direct-path candidates of a peer whose direct socket has this port.
pub open spec fn direct_candidates(
    port: u16,
    reflexive_ip: Option<IpAddr>,
    mapped: Option<SocketAddr>,
) -> Seq<SocketAddr> {
    let first = match mapped {
        Some(m) => seq![m],
        None => Seq::empty(),
    };
    match reflexive_ip {
        Some(ip) => {
            let reflexive = SocketAddr::at(ip, port);
            if mapped == Some(reflexive) {
                first
            } else {
                first.push(reflexive)
            }
        },
        None => first,
    }
}

/// This peer's direct-path candidates, in the order they are advertised.
///
/// `reflexive_ip` is the peer's public IP as the relay observed it on the outer
/// bind session; paired with the *direct* socket's port it is the address a
/// port-preserving (full-cone / NETMAP / explicitly forwarded) NAT presents to
/// the other peer. `mapped` is an address a PCP/NAT-PMP forward made reachable
/// (`--port-map`), which holds even on a symmetric NAT.
pub fn candidates(
    mux: &PathMuxHandle,
    reflexive_ip: Option<IpAddr>,
    mapped: Option<SocketAddr>,
) -> (out: Vec<SocketAddr>)
    ensures
        out@ == direct_candidates(mux.direct_local.port, reflexive_ip, mapped),
{
    let port: u16 = mux.direct_local().port;
    let mut out: Vec<SocketAddr> = Vec::new();
    // The explicit forward first: it is the one that survives a symmetric NAT.
    if let Some(m) = mapped {
        out.push(m);
    }
    if let Some(ip) = reflexive_ip {
        let reflexive = SocketAddr::new(ip, port);
        let known: bool = match mapped {
            Some(m) => m == reflexive,
            None => false,
        };
        if !known {
            out.push(reflexive);
        }
    }
    proof {
        assert(out@ =~= direct_candidates(mux.direct_local.port, reflexive_ip, mapped));
    }
    out
}

/// Something that happened to the paths of a connection while it is punched.
#[derive(Debug, Clone, Copy, PartialEq, Eq, Structural)]
pub enum PathNotice {
    /// A path was validated.
    Established(u64),
    /// Events were lost; an Established may have been among them.
    Lagged,
    /// Any other event.
    Other,
    /// No more events will come.
    Ended,
    /// The time for the punch is over.
    TimedOut,
}

/// What a notice means for the punch: nothing yet, the direct path's id, or
/// failure. Path zero is the relay path. A lagged stream may have dropped an
/// Established; the path is still there, so the punch goes on watching.
pub fn path_outcome(notice: PathNotice) -> (r: Option<Result<u64, ProxyError>>)
    ensures
        match notice {
            PathNotice::Established(id) => if id != 0 {
                r == Some(Ok::<u64, ProxyError>(id))
            } else {
                r is None
            },
            PathNotice::Lagged | PathNotice::Other => r is None,
            PathNotice::Ended => r matches Some(Err(ProxyError::Quic(t))) && t@
                == "path event stream ended"@,
            PathNotice::TimedOut => r matches Some(Err(ProxyError::Quic(t))) && t@
                == "hole punch timed out"@,
        },
{
    match notice {
        PathNotice::Established(id) => if id != 0 {
            Some(Ok(id))
        } else {
            None
        },
        PathNotice::Lagged | PathNotice::Other => None,
        PathNotice::Ended => Some(
            Err(ProxyError::Quic(String::from_str("path event stream ended"))),
        ),
        PathNotice::TimedOut => Some(
            Err(ProxyError::Quic(String::from_str("hole punch timed out"))),
        ),
    }
}

/// What the round driver asks for.
#[derive(Debug, Clone, Copy, PartialEq, Eq, Structural)]
pub enum RoundStep {
    /// Read the set of addresses that the peer has advertised.
    Look,
    /// Wait for that set to change, [`ADDRESS_WAIT_MS`] in all.
    AwaitUpdate,
    /// Initiate a traversal round.
    Initiate,
    /// Wait [`ROUND_INTERVAL_MS`].
    Pause,
    /// Nothing more: wait for the punch to end.
    Idle,
}

/// What came of it.
#[derive(Debug, Clone, Copy, PartialEq, Eq, Structural)]
pub enum RoundEvent {
    /// Whether the peer has advertised an address.
    Known(bool),
    /// The set changed.
    Updated,
    /// The set will not change any more, or the wait is over.
    GaveUp,
    /// The round was initiated.
    Started,
    /// The round was refused: this end has no candidate, or the connection is
    /// closed. Another round will not help.
    Refused,
    /// The pause is over.
    Elapsed,
}

/// Client side: initiate a traversal round as soon as the server has advertised
/// an address, then keep re-initiating until the punch ends. Retrying matters on
/// a NAT whose binding only opens once *both* sides have sent outward.
///
/// When there is nothing left to drive it goes idle rather than ending, because
/// it runs beside the watch for path events: an Established that an earlier
/// round had already set in motion must not be lost.
#[derive(Debug)]
pub struct RoundDriver {
    pub step: RoundStep,
}

/// The step that follows.
pub open spec fn next_step(step: RoundStep, event: RoundEvent) -> RoundStep {
    match (step, event) {
        (RoundStep::Look, RoundEvent::Known(known)) => if known {
            RoundStep::Initiate
        } else {
            RoundStep::AwaitUpdate
        },
        (RoundStep::AwaitUpdate, RoundEvent::Updated) => RoundStep::Look,
        (RoundStep::AwaitUpdate, RoundEvent::GaveUp) => RoundStep::Idle,
        (RoundStep::Initiate, RoundEvent::Started) => RoundStep::Pause,
        (RoundStep::Initiate, RoundEvent::Refused) => RoundStep::Idle,
        (RoundStep::Pause, RoundEvent::Elapsed) => RoundStep::Initiate,
        _ => step,
    }
}

impl RoundDriver {
    /// Subscribing to updates races the frame: what is already known is looked
    /// at first.
    pub fn new() -> (d: Self)
        ensures
            d.step == RoundStep::Look,
    {
        RoundDriver { step: RoundStep::Look }
    }

    /// Take in what came of the last step.
    pub fn on(&mut self, event: RoundEvent)
        ensures
            final(self).step == next_step(old(self).step, event),
    {
        match (self.step, event) {
            (RoundStep::Look, RoundEvent::Known(known)) => {
                self.step =
                if known {
                    RoundStep::Initiate
                } else {
                    RoundStep::AwaitUpdate
                };
            },
            (RoundStep::AwaitUpdate, RoundEvent::Updated) => {
                self.step = RoundStep::Look;
            },
            (RoundStep::AwaitUpdate, RoundEvent::GaveUp) => {
                self.step = RoundStep::Idle;
            },
            (RoundStep::Initiate, RoundEvent::Started) => {
                self.step = RoundStep::Pause;
            },
            (RoundStep::Initiate, RoundEvent::Refused) => {
                self.step = RoundStep::Idle;
            },
            (RoundStep::Pause, RoundEvent::Elapsed) => {
                self.step = RoundStep::Initiate;
            },
            _ => {},
        }
    }
}

/// The steps that a run of events leads through.
pub open spec fn steps_after(step: RoundStep, events: Seq<RoundEvent>) -> RoundStep
    decreases events.len(),
{
    if events.len() == 0 {
        step
    } else {
        next_step(steps_after(step, events.drop_last()), events.last())
    }
}

/// No round is initiated before the peer is known to have advertised an
/// address, and an idle driver stays idle.
pub proof fn lemma_rounds_wait_for_an_address(events: Seq<RoundEvent>)
    requires
        forall|i: int| 0 <= i < events.len() ==> #[trigger] events[i] != RoundEvent::Known(true),
    ensures
        steps_after(RoundStep::Look, events) != RoundStep::Initiate,
        steps_after(RoundStep::Look, events) != RoundStep::Pause,
        steps_after(RoundStep::Idle, events) == RoundStep::Idle,
    decreases events.len(),
{
    if events.len() > 0 {
        let d = events.drop_last();
        assert forall|i: int| 0 <= i < d.len() implies #[trigger] d[i] != RoundEvent::Known(
            true,
        ) by {
            assert(events[i] != RoundEvent::Known(true));
        }
        assert(events[events.len() - 1] != RoundEvent::Known(true));
        lemma_rounds_wait_for_an_address(d);
    }
}

/// The addresses offered are the mapped one, if there is one, and then the
/// reflexive host with the socket's own port, if it is known; each once.
pub proof fn lemma_direct_candidates(
    port: u16,
    reflexive_ip: Option<IpAddr>,
    mapped: Option<SocketAddr>,
    a: SocketAddr,
)
    ensures
        ({
            let out = direct_candidates(port, reflexive_ip, mapped);
            &&& out.contains(a) <==> mapped == Some(a) || (reflexive_ip matches Some(ip) && a
                == SocketAddr::at(ip, port))
            &&& out.no_duplicates()
            &&& mapped matches Some(m) ==> out[0] == m
        }),
{
    let out = direct_candidates(port, reflexive_ip, mapped);
    if let Some(m) = mapped {
        assert(out[0] == m);
    }
    if let Some(ip) = reflexive_ip {
        let r = SocketAddr::at(ip, port);
        if mapped != Some(r) {
            assert(out.last() == r);
            assert(out[out.len() - 1] == r);
        }
    }
}

/// A round is initiated once an address of the peer is known, and again after
/// each pause; the driver goes idle exactly when waiting is given up or a round
/// is refused.
pub proof fn lemma_round_steps(step: RoundStep, event: RoundEvent)
    ensures
        next_step(step, event) == RoundStep::Initiate <==> (step == RoundStep::Look && event
            == RoundEvent::Known(true)) || (step == RoundStep::Pause && event
            == RoundEvent::Elapsed) || (step == RoundStep::Initiate && event != RoundEvent::Started
            && event != RoundEvent::Refused),
        next_step(step, event) == RoundStep::Idle <==> step == RoundStep::Idle || (step
            == RoundStep::AwaitUpdate && event == RoundEvent::GaveUp) || (step
            == RoundStep::Initiate && event == RoundEvent::Refused),
        next_step(step, event) == RoundStep::Pause <==> (step == RoundStep::Initiate && event
            == RoundEvent::Started) || (step == RoundStep::Pause && event != RoundEvent::Elapsed),
        next_step(step, event) == RoundStep::Look <==> (step == RoundStep::AwaitUpdate && event
            == RoundEvent::Updated) || (step == RoundStep::Look && !(event is Known)),
{
}

} // verus!
