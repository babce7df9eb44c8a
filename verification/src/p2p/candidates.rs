//! Candidate gathering for hole punching.
//!
//! A peer offers its transport-address candidates to the other over the
//! inner control stream; the set is, in ICE-style priority order: host
//! addresses (local interfaces, opt-in), the server-reflexive address (from
//! the relay's OBSERVED_ADDRESS), and the relay address (`paddr`, always
//! present). This module assembles and numbers that set; the actual probing
//! lives in the punch layer.

use vstd::prelude::*;

use crate::net::SocketAddr;

use super::wire::{Candidate, CandidateKind};

verus! {

/// The inputs a peer has for gathering.
#[derive(Debug, Clone)]
pub struct Sources {
    /// Local interface addresses (host candidates). Empty unless the
    /// operator opted into `--direct=full`.
    pub host: Vec<SocketAddr>,
    /// The relay's observed outer source (reflexive), if reported.
    pub reflexive: Option<SocketAddr>,
    /// The relay-allocated public address — always present.
    pub relay: SocketAddr,
}

/// The addresses of some candidates.
pub open spec fn addrs(v: Seq<Candidate>) -> Seq<SocketAddr> {
    v.map_values(|c: Candidate| c.addr)
}

/// A list with one more candidate, unless its address is there already.
pub open spec fn offered(v: Seq<Candidate>, addr: SocketAddr, kind: CandidateKind) -> Seq<
    Candidate,
> {
    if addrs(v).contains(addr) {
        v
    } else {
        v.push(Candidate { seq: v.len() as u32, addr, kind })
    }
}

/// The host candidates.
pub open spec fn hosts_offered(host: Seq<SocketAddr>) -> Seq<Candidate>
    decreases host.len(),
{
    if host.len() == 0 {
        Seq::empty()
    } else {
        offered(hosts_offered(host.drop_last()), host.last(), CandidateKind::Host)
    }
}

/// The candidate set of some sources.
pub open spec fn gathered(s: Sources) -> Seq<Candidate> {
    let host = hosts_offered(s.host@);
    let seen = match s.reflexive {
        Some(r) => offered(host, r, CandidateKind::Reflexive),
        None => host,
    };
    offered(seen, s.relay, CandidateKind::Relay)
}

fn offer(v: &mut Vec<Candidate>, addr: SocketAddr, kind: CandidateKind)
    ensures
        final(v)@ == offered(old(v)@, addr, kind),
{
    let mut i: usize = 0;
    while i < v.len()
        invariant
            i <= v@.len(),
            v@ == old(v)@,
            forall|j: int| 0 <= j < i ==> (#[trigger] v@[j]).addr != addr,
        decreases v@.len() - i,
    {
        if v[i].addr == addr {
            proof {
                assert(addrs(v@)[i as int] == addr);
            }
            return;
        }
        i = i + 1;
    }
    proof {
        assert(!addrs(v@).contains(addr));
    }
    let seq: u32 = v.len() as u32;
    v.push(Candidate { seq, addr, kind });
}

/// Assemble the candidate set: host, then reflexive, then relay, numbered by
/// `seq` in that order, de-duplicated by address (the reflexive address can
/// equal a host or the relay address behind a full-cone NAT), and in
/// descending priority.
pub fn gather(sources: &Sources) -> (out: Vec<Candidate>)
    ensures
        out@ == gathered(*sources),
{
    let mut out: Vec<Candidate> = Vec::new();
    let mut i: usize = 0;
    proof {
        assert(sources.host@.take(0) =~= Seq::<SocketAddr>::empty());
    }
    while i < sources.host.len()
        invariant
            i <= sources.host@.len(),
            out@ == hosts_offered(sources.host@.take(i as int)),
        decreases sources.host@.len() - i,
    {
        offer(&mut out, sources.host[i], CandidateKind::Host);
        proof {
            assert(sources.host@.take(i + 1).drop_last() =~= sources.host@.take(i as int));
        }
        i = i + 1;
    }
    proof {
        assert(sources.host@.take(i as int) =~= sources.host@);
    }
    if let Some(r) = sources.reflexive {
        offer(&mut out, r, CandidateKind::Reflexive);
    }
    offer(&mut out, sources.relay, CandidateKind::Relay);
    out
}

/// Addresses are distinct, each candidate is numbered by its place, and
/// priorities do not rise.
pub open spec fn in_order(v: Seq<Candidate>) -> bool {
    &&& forall|i: int, j: int|
        0 <= i < j < v.len() ==> (#[trigger] v[i]).addr != (#[trigger] v[j]).addr
    &&& forall|i: int| 0 <= i < v.len() ==> (#[trigger] v[i]).seq == i as u32
    &&& forall|i: int, j: int|
        0 <= i < j < v.len() ==> (#[trigger] v[i]).kind.spec_priority() >= (
        #[trigger] v[j]).kind.spec_priority()
}

proof fn lemma_offered(v: Seq<Candidate>, addr: SocketAddr, kind: CandidateKind)
    requires
        in_order(v),
        forall|i: int|
            0 <= i < v.len() ==> (#[trigger] v[i]).kind.spec_priority() >= kind.spec_priority(),
    ensures
        in_order(offered(v, addr, kind)),
        addrs(offered(v, addr, kind)).contains(addr),
        forall|a: SocketAddr| #[trigger] addrs(v).contains(a) ==> addrs(offered(v, addr, kind)).contains(a),
        forall|i: int|
            0 <= i < offered(v, addr, kind).len() ==> (#[trigger] offered(
                v,
                addr,
                kind,
            )[i]).kind.spec_priority() >= kind.spec_priority(),
{
    let w = offered(v, addr, kind);
    if !addrs(v).contains(addr) {
        assert(addrs(w)[v.len() as int] == addr);
        assert forall|a: SocketAddr| #[trigger] addrs(v).contains(a) implies addrs(w).contains(
            a,
        ) by {
            let k = choose|k: int| 0 <= k < addrs(v).len() && addrs(v)[k] == a;
            assert(addrs(w)[k] == a);
        }
        assert forall|i: int, j: int| 0 <= i < j < w.len() implies (#[trigger] w[i]).addr != (
        #[trigger] w[j]).addr by {
            if j == v.len() {
                assert(addrs(v)[i] == v[i].addr);
            }
        }
    }
}

proof fn lemma_hosts(host: Seq<SocketAddr>)
    ensures
        in_order(hosts_offered(host)),
        forall|a: SocketAddr| #[trigger]
            host.contains(a) ==> addrs(hosts_offered(host)).contains(a),
        forall|i: int|
            0 <= i < hosts_offered(host).len() ==> (#[trigger] hosts_offered(
                host,
            )[i]).kind.spec_priority() >= CandidateKind::Host.spec_priority(),
    decreases host.len(),
{
    if host.len() > 0 {
        let d = host.drop_last();
        lemma_hosts(d);
        lemma_offered(hosts_offered(d), host.last(), CandidateKind::Host);
        assert forall|a: SocketAddr| #[trigger] host.contains(a) implies addrs(
            hosts_offered(host),
        ).contains(a) by {
            let k = choose|k: int| 0 <= k < host.len() && host[k] == a;
            if k < d.len() {
                assert(d[k] == a);
                assert(d.contains(a));
            }
        }
    }
}

/// The set is in descending priority, numbered in that order, without a
/// repeated address; and every source's address is in it, the relay's always.
pub proof fn lemma_gathered(s: Sources)
    ensures
        in_order(gathered(s)),
        addrs(gathered(s)).contains(s.relay),
        s.reflexive matches Some(r) ==> addrs(gathered(s)).contains(r),
        forall|a: SocketAddr| #[trigger]
            s.host@.contains(a) ==> addrs(gathered(s)).contains(a),
{
    lemma_hosts(s.host@);
    let host = hosts_offered(s.host@);
    let seen = match s.reflexive {
        Some(r) => offered(host, r, CandidateKind::Reflexive),
        None => host,
    };
    if let Some(r) = s.reflexive {
        lemma_offered(host, r, CandidateKind::Reflexive);
    }
    lemma_offered(seen, s.relay, CandidateKind::Relay);
}

proof fn lemma_host_kinds(host: Seq<SocketAddr>, i: int)
    requires
        0 <= i < hosts_offered(host).len(),
    ensures
        hosts_offered(host)[i].kind == CandidateKind::Host,
        host.contains(hosts_offered(host)[i].addr),
    decreases host.len(),
{
    let d = host.drop_last();
    let n = host.len() - 1;
    if i < hosts_offered(d).len() {
        lemma_host_kinds(d, i);
        assert(hosts_offered(host)[i] == hosts_offered(d)[i]);
        let j = choose|j: int| 0 <= j < d.len() && d[j] == hosts_offered(d)[i].addr;
        assert(host[j] == d[j]);
    } else {
        assert(host[n] == host.last());
    }
}

/// Every candidate is one of the sources, and of the best kind that its address
/// is a source of: a host's before a reflexive one, that before the relay's.
pub proof fn lemma_kinds(s: Sources, i: int)
    requires
        0 <= i < gathered(s).len(),
    ensures
        ({
            let c = gathered(s)[i];
            &&& s.host@.contains(c.addr) ==> c.kind == CandidateKind::Host
            &&& !s.host@.contains(c.addr) && s.reflexive == Some(c.addr) ==> c.kind
                == CandidateKind::Reflexive
            &&& !s.host@.contains(c.addr) && s.reflexive != Some(c.addr) ==> c.kind
                == CandidateKind::Relay && c.addr == s.relay
        }),
{
    let host = hosts_offered(s.host@);
    let all = gathered(s);
    let c = all[i];
    lemma_gathered(s);
    lemma_hosts_first(s);
    if i < host.len() {
        lemma_host_kinds(s.host@, i);
    } else if s.host@.contains(c.addr) {
        let k = choose|k: int| 0 <= k < host.len() && (#[trigger] host[k]).addr == c.addr;
        assert(all[k] == host[k]);
        assert(all[k].addr == all[i].addr);
    } else if let Some(r) = s.reflexive {
        let seen = offered(host, r, CandidateKind::Reflexive);
        if !addrs(host).contains(r) {
            assert(addrs(seen)[host.len() as int] == r);
        }
        assert(addrs(seen).contains(r));
    }
}

proof fn lemma_hosts_first(s: Sources)
    ensures
        ({
            let host = hosts_offered(s.host@);
            let all = gathered(s);
            &&& host.len() <= all.len() <= host.len() + 2
            &&& forall|k: int| 0 <= k < host.len() ==> #[trigger] all[k] == host[k]
            &&& forall|a: SocketAddr| #[trigger]
                s.host@.contains(a) ==> exists|k: int|
                    0 <= k < host.len() && (#[trigger] host[k]).addr == a
        }),
{
    let host = hosts_offered(s.host@);
    assert forall|a: SocketAddr| #[trigger] s.host@.contains(a) implies exists|k: int|
        0 <= k < host.len() && (#[trigger] host[k]).addr == a by {
        lemma_host_there(s.host@, a);
    }
}

proof fn lemma_host_there(host: Seq<SocketAddr>, a: SocketAddr)
    requires
        host.contains(a),
    ensures
        exists|k: int|
            0 <= k < hosts_offered(host).len() && (#[trigger] hosts_offered(host)[k]).addr == a,
    decreases host.len(),
{
    let d = host.drop_last();
    let before = hosts_offered(d);
    let i = choose|i: int| 0 <= i < host.len() && host[i] == a;
    if i < host.len() - 1 {
        assert(d[i] == a);
        lemma_host_there(d, a);
        let k = choose|k: int| 0 <= k < before.len() && (#[trigger] before[k]).addr == a;
        assert(hosts_offered(host)[k] == before[k]);
    } else if addrs(before).contains(a) {
        let k = choose|k: int| 0 <= k < addrs(before).len() && addrs(before)[k] == a;
        assert(before[k].addr == a);
        assert(hosts_offered(host)[k] == before[k]);
    } else {
        assert(hosts_offered(host)[before.len() as int].addr == a);
    }
}

/// Host candidates come in the order of their sources, and only the first of a
/// repeated address.
pub proof fn lemma_hosts_order(host: Seq<SocketAddr>, a: SocketAddr)
    ensures
        host.contains(a) ==> hosts_offered(host.push(a)) == hosts_offered(host),
        !host.contains(a) ==> hosts_offered(host.push(a)) == hosts_offered(host).push(
            Candidate {
                seq: hosts_offered(host).len() as u32,
                addr: a,
                kind: CandidateKind::Host,
            },
        ),
{
    let v = hosts_offered(host);
    assert(host.push(a).drop_last() =~= host);
    if host.contains(a) {
        lemma_host_there(host, a);
        let k = choose|k: int| 0 <= k < v.len() && (#[trigger] v[k]).addr == a;
        assert(addrs(v)[k] == a);
    } else if addrs(v).contains(a) {
        let k = choose|k: int| 0 <= k < addrs(v).len() && addrs(v)[k] == a;
        lemma_host_kinds(host, k);
    }
}

} // verus!
