//! Coordinated simultaneous open — the hole punch.
//!
//! DCUtR-style, each peer stands up a *fresh* QUIC endpoint and both peers
//! dial each other's candidates on it while also accepting — both directions
//! transmitting is what opens the NAT bindings, and whichever handshake
//! completes first is the direct path. The probe uses the same RFC 7250
//! pinned identity as the relay path, so a completed probe is an
//! authenticated direct connection.
//!
//! [`Race`] decides the race between the dials and the inbound attempts: when
//! to go on waiting, which of the connections that completed to keep, and when
//! to give up.

use vstd::prelude::*;

use crate::error::ProxyError;

use super::identity::SpkiPin;

verus! {

/// QUIC PING interval on the direct path: NAT UDP bindings commonly expire at
/// ~30s, so keep it alive well under that.
pub const KEEPALIVE_MS: u64 = 20_000;

/// How long to wait for a duplicate once a connection has completed.
pub const GRACE_MS: u64 = 300;

/// Which side dialed a completed probe connection.
#[derive(Debug, Clone, Copy, PartialEq, Eq, Structural)]
pub enum Role {
    /// We dialed it (we are the QUIC client).
    Client,
    /// We accepted it (we are the QUIC server).
    Server,
}

/// A probe connection that completed: who dialed it, and the pin that the
/// peer presented on it.
#[derive(Debug, Clone, Copy)]
pub struct Probe {
    pub role: Role,
    pub presented: Option<SpkiPin>,
}

/// The lexicographic order of byte strings.
pub open spec fn before(a: Seq<u8>, b: Seq<u8>) -> bool
    decreases a.len(),
{
    if b.len() == 0 {
        false
    } else if a.len() == 0 {
        true
    } else if a[0] != b[0] {
        a[0] < b[0]
    } else {
        before(a.drop_first(), b.drop_first())
    }
}

/// A pin's bytes.
pub open spec fn pin_view(p: Option<SpkiPin>) -> Option<Seq<u8>> {
    match p {
        Some(p) => Some(p@),
        None => None,
    }
}

/// Whether a connection is the one both peers keep: its client is the peer
/// with the lower pin. Without the peer's pin, the one that was dialed.
pub open spec fn canonical(role: Role, mine: Seq<u8>, peer: Option<Seq<u8>>) -> bool {
    match peer {
        Some(pp) => if role == Role::Client {
            before(mine, pp)
        } else {
            before(pp, mine)
        },
        None => role == Role::Client,
    }
}

/// The peer's pin: the expected one, or the one that was presented.
pub open spec fn known_pin(expected: Option<SpkiPin>, presented: Option<SpkiPin>) -> Option<
    Seq<u8>,
> {
    if expected is Some {
        pin_view(expected)
    } else {
        pin_view(presented)
    }
}

/// Whether a probe is the canonical one.
pub open spec fn is_canonical(p: Probe, mine: Seq<u8>, expected: Option<SpkiPin>) -> bool {
    canonical(p.role, mine, known_pin(expected, p.presented))
}

/// The probe to keep: the first canonical one, or the first if none is.
pub open spec fn kept(probes: Seq<Probe>, mine: Seq<u8>, expected: Option<SpkiPin>, k: int) -> bool {
    &&& 0 <= k < probes.len()
    &&& forall|j: int| 0 <= j < k ==> !is_canonical(#[trigger] probes[j], mine, expected)
    &&& is_canonical(probes[k], mine, expected) || (k == 0 && forall|j: int|
        0 <= j < probes.len() ==> !is_canonical(#[trigger] probes[j], mine, expected))
}

proof fn lemma_before_from(a: Seq<u8>, b: Seq<u8>, k: int)
    requires
        a.len() == b.len(),
        0 <= k <= a.len(),
        forall|j: int| 0 <= j < k ==> a[j] == b[j],
    ensures
        before(a, b) == before(a.skip(k), b.skip(k)),
    decreases k,
{
    if k == 0 {
        assert(a.skip(0) =~= a && b.skip(0) =~= b);
    } else {
        let x = a.drop_first();
        let y = b.drop_first();
        assert(a[0] == b[0]);
        assert forall|j: int| 0 <= j < k - 1 implies x[j] == y[j] by {
            assert(a[j + 1] == b[j + 1]);
        }
        lemma_before_from(x, y, k - 1);
        assert(x.skip(k - 1) =~= a.skip(k));
        assert(y.skip(k - 1) =~= b.skip(k));
    }
}

fn pin_before(a: &SpkiPin, b: &SpkiPin) -> (v: bool)
    ensures
        v == before(a@, b@),
{
    let mut i: usize = 0;
    while i < 32
        invariant
            i <= 32,
            forall|j: int| 0 <= j < i ==> a@[j] == b@[j],
        decreases 32 - i,
    {
        if a[i] != b[i] {
            proof {
                lemma_before_from(a@, b@, i as int);
                assert(a@.skip(i as int)[0] == a@[i as int]);
                assert(b@.skip(i as int)[0] == b@[i as int]);
            }
            return a[i] < b[i];
        }
        i = i + 1;
    }
    proof {
        lemma_before_from(a@, b@, 32);
        assert(b@.skip(32).len() == 0);
    }
    false
}

fn probe_canonical(p: &Probe, mine: &SpkiPin, expected: &Option<SpkiPin>) -> (v: bool)
    ensures
        v == is_canonical(*p, mine@, *expected),
{
    let peer: Option<SpkiPin> = if expected.is_some() {
        *expected
    } else {
        p.presented
    };
    match peer {
        Some(pp) => match p.role {
            Role::Client => pin_before(mine, &pp),
            Role::Server => pin_before(&pp, mine),
        },
        None => p.role == Role::Client,
    }
}

/// Choose the connection both peers agree to keep from those that completed.
/// Prefer the canonical one (the lower-pinned peer is the client); with no
/// canonical connection, keep the first (a lone success).
pub fn pick(probes: &[Probe], my_pin: SpkiPin, peer_pin: Option<SpkiPin>) -> (k: usize)
    requires
        probes@.len() > 0,
    ensures
        kept(probes@, my_pin@, peer_pin, k as int),
{
    let mut i: usize = 0;
    while i < probes.len()
        invariant
            i <= probes@.len(),
            forall|j: int|
                0 <= j < i ==> !is_canonical(#[trigger] probes@[j], my_pin@, peer_pin),
        decreases probes@.len() - i,
    {
        if probe_canonical(&probes[i], &my_pin, &peer_pin) {
            return i;
        }
        i = i + 1;
    }
    0
}

/// What happened in a punch.
#[derive(Debug, Clone, Copy)]
pub enum RaceEvent {
    /// A dial or an inbound attempt completed.
    Completed(Probe),
    /// The time for punching is over.
    Deadline,
    /// The grace after the last completion is over.
    Grace,
    /// No attempt is left that could complete.
    Exhausted,
}

/// What a punch does next.
#[derive(Debug)]
pub enum RaceStep {
    /// Wait for the next event: for the grace to pass if `grace`, else for
    /// the deadline.
    Wait { grace: bool },
    /// Keep the connection of this number and close the others.
    Keep(usize),
    /// Give up.
    Fail(ProxyError),
}

/// The race between the dials to every remote candidate and the inbound
/// probes.
///
/// Both peers dialing and accepting at once is the simultaneous open — that
/// is what opens the NATs — so up to two connections can complete. The first
/// is kept, but a short grace is left for a possible duplicate; on a genuine
/// duplicate the tie-break picks the canonical one — the connection whose
/// *client* is the lower-pinned peer — so both sides converge. A lone success
/// is kept regardless of role (asymmetric NAT often lets only one direction
/// through).
pub struct Race {
    my_pin: SpkiPin,
    peer_pin: Option<SpkiPin>,
    probes: Vec<Probe>,
}

/// What an event makes of a race in which `done` has completed.
pub open spec fn steps(
    done: Seq<Probe>,
    mine: Seq<u8>,
    expected: Option<SpkiPin>,
    event: RaceEvent,
    s: RaceStep,
) -> bool {
    match event {
        RaceEvent::Completed(_) => s == (RaceStep::Wait { grace: true }),
        RaceEvent::Deadline => if done.len() > 0 {
            s == (RaceStep::Wait { grace: true })
        } else {
            s matches RaceStep::Fail(ProxyError::Quic(t)) && t@ == "hole punch timed out"@
        },
        RaceEvent::Grace => if done.len() > 0 {
            s matches RaceStep::Keep(k) && kept(
                done,
                mine,
                expected,
                k as int,
            )
        } else {
            s == (RaceStep::Wait { grace: false })
        },
        RaceEvent::Exhausted => if done.len() > 0 {
            s matches RaceStep::Keep(k) && kept(
                done,
                mine,
                expected,
                k as int,
            )
        } else {
            s matches RaceStep::Fail(ProxyError::Quic(t)) && t@
                == "all punch attempts failed"@
        },
    }
}

impl Race {
    /// The connections that completed, in order.
    pub closed spec fn completed(self) -> Seq<Probe> {
        self.probes@
    }

    /// This peer's pin.
    pub closed spec fn mine(self) -> Seq<u8> {
        self.my_pin@
    }

    /// The peer's pin, where it is expected.
    pub closed spec fn expected(self) -> Option<SpkiPin> {
        self.peer_pin
    }

    /// Nothing has completed yet.
    pub fn new(my_pin: SpkiPin, peer_pin: Option<SpkiPin>) -> (r: Self)
        ensures
            r.completed().len() == 0,
            r.mine() == my_pin@,
            r.expected() == peer_pin,
    {
        Race { my_pin, peer_pin, probes: Vec::new() }
    }

    /// Take in an event.
    pub fn on(&mut self, event: RaceEvent) -> (s: RaceStep)
        ensures
            final(self).mine() == old(self).mine(),
            final(self).expected() == old(self).expected(),
            final(self).completed() == match event {
                RaceEvent::Completed(p) => old(self).completed().push(p),
                _ => old(self).completed(),
            },
            steps(
                old(self).completed(),
                old(self).mine(),
                old(self).expected(),
                event,
                s,
            ),
    {
        match event {
            RaceEvent::Completed(p) => {
                self.probes.push(p);
                RaceStep::Wait { grace: true }
            },
            RaceEvent::Deadline => if self.probes.len() > 0 {
                RaceStep::Wait { grace: true }
            } else {
                RaceStep::Fail(ProxyError::Quic(String::from_str("hole punch timed out")))
            },
            RaceEvent::Grace => if self.probes.len() > 0 {
                RaceStep::Keep(pick(self.probes.as_slice(), self.my_pin, self.peer_pin))
            } else {
                RaceStep::Wait { grace: false }
            },
            RaceEvent::Exhausted => if self.probes.len() > 0 {
                RaceStep::Keep(pick(self.probes.as_slice(), self.my_pin, self.peer_pin))
            } else {
                RaceStep::Fail(ProxyError::Quic(String::from_str("all punch attempts failed")))
            },
        }
    }
}

proof fn lemma_before_total(a: Seq<u8>, b: Seq<u8>)
    requires
        a.len() == b.len(),
    ensures
        a == b ==> !before(a, b),
        a != b ==> before(a, b) != before(b, a),
    decreases a.len(),
{
    if a.len() > 0 {
        lemma_before_total(a.drop_first(), b.drop_first());
        if a[0] == b[0] && a.drop_first() == b.drop_first() {
            assert(a =~= seq![a[0]] + a.drop_first());
            assert(b =~= seq![b[0]] + b.drop_first());
        }
    } else {
        assert(a =~= b);
    }
}

/// The two peers converge without coordination: the end that dialed a
/// connection and the end that accepted it judge it alike, and of two
/// connections dialed in opposite directions exactly one is canonical.
pub proof fn lemma_tie_break_agrees(a: Seq<u8>, b: Seq<u8>)
    requires
        a.len() == 32,
        b.len() == 32,
        a != b,
    ensures
        canonical(Role::Client, a, Some(b)) == canonical(Role::Server, b, Some(a)),
        canonical(Role::Client, a, Some(b)) != canonical(Role::Client, b, Some(a)),
        canonical(Role::Client, a, Some(b)) != canonical(Role::Server, a, Some(b)),
{
    lemma_before_total(a, b);
}

/// Pins are compared byte by byte: the first byte that differs decides, and a
/// pin that ends first comes first.
pub proof fn lemma_before(a: Seq<u8>, b: Seq<u8>, i: int)
    requires
        0 <= i <= a.len(),
        i <= b.len(),
        forall|j: int| 0 <= j < i ==> a[j] == b[j],
    ensures
        i < a.len() && i < b.len() && a[i] != b[i] ==> before(a, b) == (a[i] < b[i]),
        i == a.len() ==> before(a, b) == (a.len() < b.len()),
        i == b.len() ==> !before(a, b),
    decreases i,
{
    if i > 0 {
        let x = a.drop_first();
        let y = b.drop_first();
        assert(a[0] == b[0]);
        assert(forall|j: int| 0 <= j < x.len() ==> x[j] == a[j + 1]);
        assert(forall|j: int| 0 <= j < y.len() ==> y[j] == b[j + 1]);
        lemma_before(x, y, i - 1);
    }
}

/// Of several completed connections the first canonical one is kept, and the
/// first of all if none is; a pin that was expected counts before one that was
/// presented, and without either the dialed connection is canonical.
pub proof fn lemma_kept(
    probes: Seq<Probe>,
    mine: Seq<u8>,
    expected: Option<SpkiPin>,
    k: int,
    j: int,
)
    requires
        kept(probes, mine, expected, k),
        0 <= j < probes.len(),
    ensures
        0 <= k < probes.len(),
        ({
            let peer = if expected is Some {
                expected
            } else {
                probes[j].presented
            };
            let good = match peer {
                Some(p) => if probes[j].role == Role::Client {
                    before(mine, p@)
                } else {
                    before(p@, mine)
                },
                None => probes[j].role == Role::Client,
            };
            &&& good ==> k <= j
            &&& k == j && !good ==> k == 0
        }),
{
    assert(is_canonical(probes[j], mine, expected) || !is_canonical(probes[j], mine, expected));
    if k > j {
        assert(!is_canonical(probes[j], mine, expected));
    }
}

/// A race fails exactly if it is over, by time or because nothing is left to
/// try, with no connection completed. Once one has completed it waits a little
/// for a better one, and then keeps one of those that completed.
pub proof fn lemma_race(
    done: Seq<Probe>,
    mine: Seq<u8>,
    expected: Option<SpkiPin>,
    event: RaceEvent,
    s: RaceStep,
)
    requires
        steps(done, mine, expected, event, s),
    ensures
        s is Fail <==> done.len() == 0 && (event == RaceEvent::Deadline || event
            == RaceEvent::Exhausted),
        s is Keep <==> done.len() > 0 && (event == RaceEvent::Grace || event
            == RaceEvent::Exhausted),
        s matches RaceStep::Keep(k) ==> kept(done, mine, expected, k as int),
        s matches RaceStep::Wait { grace } ==> (grace <==> event is Completed || done.len() > 0),
{
}

} // verus!
