//! Hole-punch coordination over the inner relay connection.
//!
//! With an inner QUIC connection already up through the relay, the two peers
//! exchange candidates on a control stream, then perform the coordinated
//! simultaneous open ([`super::punch`]) toward each other's candidates. A
//! success is an authenticated *direct* connection that bypasses the relay; a
//! failure leaves the relay path in place.
//!
//! Candidate-exchange completion is the "punch now" sync point rather than an
//! explicit PUNCH round message: the exchange is symmetric, so both peers
//! finish it within a few milliseconds and start punching together.

use vstd::prelude::*;

use crate::error::ProxyError;
use crate::net::SocketAddr;

use super::candidates::{addrs, gather, gathered, lemma_gathered, lemma_kinds, Sources};
use super::wire::{Candidate, CandidateKind, Control, WireError};

verus! {

/// Total time to spend punching before falling back to the relay.
pub const PUNCH_TIMEOUT_MS: u64 = 5_000;

/// Most that is read of the peer's control stream.
pub const CONTROL_LIMIT: usize = 65_536;

/// The candidates of a peer whose punch socket is bound to `host`: the
/// wildcard is not a usable host candidate, so one is offered only if the
/// socket is bound to a concrete interface.
pub open spec fn local_set(
    host: SocketAddr,
    reflexive: Option<SocketAddr>,
    relay: SocketAddr,
    s: Sources,
) -> bool {
    &&& s.host@ == if host.ip.spec_unspecified() {
        Seq::empty()
    } else {
        seq![host]
    }
    &&& s.reflexive == reflexive
    &&& s.relay == relay
}

/// What this peer offers: its punch socket's address where it is a concrete
/// one, the reflexive address and the relay address.
pub fn local_candidates(
    host: SocketAddr,
    reflexive: Option<SocketAddr>,
    relay: SocketAddr,
) -> (out: Vec<Candidate>)
    ensures
        exists|s: Sources| #[trigger]
            local_set(host, reflexive, relay, s) && out@ == gathered(s),
{
    let mut hosts: Vec<SocketAddr> = Vec::new();
    if !host.ip.is_unspecified() {
        hosts.push(host);
    }
    proof {
        assert(hosts@ =~= if host.ip.spec_unspecified() {
            Seq::empty()
        } else {
            seq![host]
        });
    }
    let sources = Sources { host: hosts, reflexive, relay };
    let out = gather(&sources);
    proof {
        assert(local_set(host, reflexive, relay, sources));
    }
    out
}

/// The candidates among some messages, in order.
pub open spec fn candidates_in(msgs: Seq<Result<Control, WireError>>) -> Seq<Candidate>
    decreases msgs.len(),
{
    if msgs.len() == 0 {
        Seq::empty()
    } else {
        let before = candidates_in(msgs.drop_last());
        match msgs.last() {
            Ok(Control::Candidate(c)) => before.push(c),
            _ => before,
        }
    }
}

/// No message is malformed.
pub open spec fn all_decoded(msgs: Seq<Result<Control, WireError>>) -> bool {
    forall|i: int| 0 <= i < msgs.len() ==> (#[trigger] msgs[i]) is Ok
}

/// The peer's candidates, from its control messages. Other messages are
/// passed over; a malformed one fails the exchange.
pub fn remote_candidates(msgs: &[Result<Control, WireError>]) -> (r: Result<
    Vec<Candidate>,
    ProxyError,
>)
    ensures
        if all_decoded(msgs@) {
            r matches Ok(v) && v@ == candidates_in(msgs@)
        } else {
            r matches Err(ProxyError::InvalidRequest(t)) && t@ == "malformed candidate"@
        },
{
    let mut out: Vec<Candidate> = Vec::new();
    let mut i: usize = 0;
    proof {
        assert(msgs@.take(0) =~= Seq::<Result<Control, WireError>>::empty());
    }
    while i < msgs.len()
        invariant
            i <= msgs@.len(),
            out@ == candidates_in(msgs@.take(i as int)),
            forall|j: int| 0 <= j < i ==> (#[trigger] msgs@[j]) is Ok,
        decreases msgs@.len() - i,
    {
        proof {
            assert(msgs@.take(i + 1).drop_last() =~= msgs@.take(i as int));
        }
        match &msgs[i] {
            Ok(Control::Candidate(c)) => {
                out.push(*c);
            },
            Ok(_) => {},
            Err(_) => {
                proof {
                    assert(!(msgs@[i as int] is Ok));
                }
                return Err(ProxyError::InvalidRequest(String::from_str("malformed candidate")));
            },
        }
        i = i + 1;
    }
    proof {
        assert(msgs@.take(i as int) =~= msgs@);
    }
    Ok(out)
}

/// The addresses to punch: every distinct host or reflexive candidate. The
/// relay candidate is the fallback path (its address is the relay's
/// forwarding socket, not a direct inner-QUIC endpoint), so it is never a
/// punch target.
pub open spec fn targets(remote: Seq<Candidate>) -> Seq<SocketAddr>
    decreases remote.len(),
{
    if remote.len() == 0 {
        Seq::empty()
    } else {
        let before = targets(remote.drop_last());
        let c = remote.last();
        if c.kind == CandidateKind::Relay || before.contains(c.addr) {
            before
        } else {
            before.push(c.addr)
        }
    }
}

fn is_listed(v: &Vec<SocketAddr>, a: SocketAddr) -> (r: bool)
    ensures
        r == v@.contains(a),
{
    let mut i: usize = 0;
    while i < v.len()
        invariant
            i <= v@.len(),
            forall|j: int| 0 <= j < i ==> #[trigger] v@[j] != a,
        decreases v@.len() - i,
    {
        if v[i] == a {
            return true;
        }
        i = i + 1;
    }
    false
}

/// The addresses to punch, or why there are none.
pub fn punch_targets(remote: &[Candidate]) -> (r: Result<Vec<SocketAddr>, ProxyError>)
    ensures
        if targets(remote@).len() > 0 {
            r matches Ok(v) && v@ == targets(remote@)
        } else {
            r matches Err(ProxyError::Quic(t)) && t@ == "peer offered no punchable candidates"@
        },
{
    let mut out: Vec<SocketAddr> = Vec::new();
    let mut i: usize = 0;
    proof {
        assert(remote@.take(0) =~= Seq::<Candidate>::empty());
    }
    while i < remote.len()
        invariant
            i <= remote@.len(),
            out@ == targets(remote@.take(i as int)),
        decreases remote@.len() - i,
    {
        proof {
            assert(remote@.take(i + 1).drop_last() =~= remote@.take(i as int));
        }
        let c = remote[i];
        if c.kind != CandidateKind::Relay && !is_listed(&out, c.addr) {
            out.push(c.addr);
        }
        i = i + 1;
    }
    proof {
        assert(remote@.take(i as int) =~= remote@);
    }
    if out.len() == 0 {
        return Err(
            ProxyError::Quic(String::from_str("peer offered no punchable candidates")),
        );
    }
    Ok(out)
}

/// The targets are the distinct addresses of the peer's host and reflexive
/// candidates: none is repeated, none is left out, and none is only a relay
/// candidate's.
pub proof fn lemma_targets(remote: Seq<Candidate>)
    ensures
        targets(remote).no_duplicates(),
        forall|a: SocketAddr| #[trigger]
            targets(remote).contains(a) <==> exists|i: int|
                0 <= i < remote.len() && (#[trigger] remote[i]).addr == a && remote[i].kind
                    != CandidateKind::Relay,
    decreases remote.len(),
{
    if remote.len() > 0 {
        let d = remote.drop_last();
        let c = remote.last();
        let before = targets(d);
        let all = targets(remote);
        lemma_targets(d);
        assert forall|a: SocketAddr| #[trigger] all.contains(a) implies exists|i: int|
            0 <= i < remote.len() && (#[trigger] remote[i]).addr == a && remote[i].kind
                != CandidateKind::Relay by {
            if before.contains(a) {
                let i = choose|i: int|
                    0 <= i < d.len() && (#[trigger] d[i]).addr == a && d[i].kind
                        != CandidateKind::Relay;
                assert(remote[i].addr == a);
            } else {
                let k = choose|k: int| 0 <= k < all.len() && all[k] == a;
                if k < before.len() {
                    assert(before[k] == a);
                }
                assert(remote[remote.len() - 1].addr == a);
            }
        }
        assert forall|a: SocketAddr|
            exists|i: int|
                0 <= i < remote.len() && (#[trigger] remote[i]).addr == a && remote[i].kind
                    != CandidateKind::Relay implies #[trigger] all.contains(a) by {
            let i = choose|i: int|
                0 <= i < remote.len() && (#[trigger] remote[i]).addr == a && remote[i].kind
                    != CandidateKind::Relay;
            if i < d.len() {
                assert(d[i].addr == a);
                assert(before.contains(a));
                let k = choose|k: int| 0 <= k < before.len() && before[k] == a;
                assert(all[k] == a);
            } else if !before.contains(a) {
                assert(all[before.len() as int] == a);
            }
        }
    }
}

/// The candidates of a peer are those of its messages, one for one and in
/// order; every other message leaves them as they are.
pub proof fn lemma_candidates_in(msgs: Seq<Result<Control, WireError>>, c: Candidate)
    ensures
        candidates_in(Seq::empty()) == Seq::<Candidate>::empty(),
        candidates_in(msgs.push(Ok(Control::Candidate(c)))) == candidates_in(msgs).push(c),
        candidates_in(msgs).contains(c) <==> exists|i: int|
            0 <= i < msgs.len() && #[trigger] msgs[i] == Ok::<Control, WireError>(
                Control::Candidate(c),
            ),
    decreases msgs.len(),
{
    let m = msgs.push(Ok(Control::Candidate(c)));
    assert(m.drop_last() =~= msgs);
    assert(m.last() == Ok::<Control, WireError>(Control::Candidate(c)));
    if msgs.len() > 0 {
        let d = msgs.drop_last();
        let n = msgs.len() - 1;
        lemma_candidates_in(d, c);
        let before = candidates_in(d);
        let all = candidates_in(msgs);
        assert(msgs[n] == msgs.last());
        if before.contains(c) {
            let k = choose|k: int| 0 <= k < before.len() && before[k] == c;
            assert(all[k] == before[k]);
            let i = choose|i: int|
                0 <= i < d.len() && #[trigger] d[i] == Ok::<Control, WireError>(
                    Control::Candidate(c),
                );
            assert(msgs[i] == d[i]);
        }
        if msgs.last() == Ok::<Control, WireError>(Control::Candidate(c)) {
            assert(all[before.len() as int] == c);
        }
        if all.contains(c) {
            let k = choose|k: int| 0 <= k < all.len() && all[k] == c;
            if k < before.len() {
                assert(before[k] == c);
            }
        }
        if exists|i: int|
            0 <= i < msgs.len() && #[trigger] msgs[i] == Ok::<Control, WireError>(
                Control::Candidate(c),
            ) {
            let i = choose|i: int|
                0 <= i < msgs.len() && #[trigger] msgs[i] == Ok::<Control, WireError>(
                    Control::Candidate(c),
                );
            if i < n {
                assert(d[i] == msgs[i]);
            }
        }
    }
}

/// Targets are tried in the order in which the peer named them: more candidates
/// only add targets behind.
pub proof fn lemma_targets_order(remote: Seq<Candidate>, c: Candidate)
    ensures
        targets(remote).is_prefix_of(targets(remote.push(c))),
        targets(remote.push(c)).len() <= targets(remote).len() + 1,
{
    assert(remote.push(c).drop_last() =~= remote);
    assert(targets(remote) =~= targets(remote.push(c)).take(targets(remote).len() as int));
}

/// What this end offers: its own address unless it is unspecified, its
/// reflexive address if it is known, its relay address, and nothing else.
pub proof fn lemma_local(
    host: SocketAddr,
    reflexive: Option<SocketAddr>,
    relay: SocketAddr,
    s: Sources,
    a: SocketAddr,
)
    requires
        local_set(host, reflexive, relay, s),
    ensures
        (exists|i: int| 0 <= i < gathered(s).len() && (#[trigger] gathered(s)[i]).addr == a)
            <==> a == relay || reflexive == Some(a) || (a == host && !host.ip.spec_unspecified()),
{
    let all = gathered(s);
    lemma_gathered(s);
    if a == host && !host.ip.spec_unspecified() {
        assert(s.host@[0] == a);
        assert(s.host@.contains(a));
    }
    if a == relay || reflexive == Some(a) || (a == host && !host.ip.spec_unspecified()) {
        assert(addrs(all).contains(a));
        let i = choose|i: int| 0 <= i < addrs(all).len() && addrs(all)[i] == a;
        assert(all[i].addr == a);
    }
    if exists|i: int| 0 <= i < all.len() && (#[trigger] all[i]).addr == a {
        let i = choose|i: int| 0 <= i < all.len() && (#[trigger] all[i]).addr == a;
        lemma_kinds(s, i);
        if s.host@.contains(a) {
            let k = choose|k: int| 0 <= k < s.host@.len() && s.host@[k] == a;
        }
    }
}

} // verus!
