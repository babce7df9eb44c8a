//! Path management: which path a peer session uses.
//!
//! A session holds the inner relay connection (never closed) and, once hole
//! punching succeeds, a direct path. It keeps trying to reach DIRECT, and
//! falls back to the relay if the direct path dies.
//!
//! ```text
//!  RELAY ──punch──► PUNCHING ──validated──► DIRECT
//!    ▲                  │                      │
//!    │  punch failed    │                      │ direct path lost
//!    └──────────────────┘                      │
//!    ▲                                          │
//!    └──────────────────────────────────────────┘   (relay never closed)
//! ```
//!
//! A session starts on the relay path and holds it for the life of the relay
//! connection.

use vstd::prelude::*;

use super::strategy::PunchStrategy;

verus! {

/// Which path a session is currently using.
#[derive(Debug, Clone, Copy, PartialEq, Eq, Structural)]
pub enum PathState {
    /// Only the relay path (initial, and after a direct path is lost).
    Relay,
    /// Attempting to hole-punch a direct path.
    Punching,
    /// A direct path is up; new streams use it.
    Direct,
}

impl PathState {
    /// The state a session starts in, and the one it is left in when its relay
    /// connection closes.
    pub fn initial() -> (s: Self)
        ensures
            s == PathState::Relay,
    {
        PathState::Relay
    }

    /// Whether a caller that waits for the direct path waits on: until the
    /// path is direct, or no change can come any more.
    pub fn keeps_waiting(self, changes_ended: bool) -> (v: bool)
        ensures
            v == (self != PathState::Direct && !changes_ended),
    {
        !(self == PathState::Direct || changes_ended)
    }

    /// Whether DIRECT was reached, once the wait is over: it ended in time,
    /// and the path is direct.
    pub fn direct_reached(self, in_time: bool) -> (v: bool)
        ensures
            v == (in_time && self == PathState::Direct),
    {
        in_time && self == PathState::Direct
    }
}

/// Strategy selection and the extra inputs some strategies need.
#[derive(Debug, Clone, Copy, PartialEq, Eq, Structural)]
pub struct PunchConfig {
    pub strategy: PunchStrategy,
    /// Ask the router (PCP / NAT-PMP) to forward the punch socket, advertising
    /// the mapped address as a candidate.
    pub port_map: bool,
}

impl Default for PunchConfig {
    /// The plain `basic` punch.
    fn default() -> (c: Self)
        ensures
            c.strategy == PunchStrategy::Basic,
            !c.port_map,
    {
        PunchConfig { strategy: PunchStrategy::Basic, port_map: false }
    }
}

} // verus!
