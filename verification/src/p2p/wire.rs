//! Provisional wire formats for hole punching.
//!
//! Candidates and punch coordination travel on the inner connection's
//! control stream 0 as CBOR, private to the two peers — the relay never sees
//! them. This stands in for the draft-seemann-quic-nat-traversal frames, kept
//! 1:1 with the draft's semantics (inner *server* offers addresses, inner
//! *client* pairs them and drives rounds, a higher round cancels outstanding
//! probes).
//!
//! A message's CBOR is the caller's part; this module delimits messages on
//! the stream and pairs candidates.

use vstd::prelude::*;
use vstd::slice::slice_subrange;

use crate::bigendian::{be16, bytes16, push_u16, read_u16};
use crate::net::SocketAddr;

verus! {

/// The kind of a candidate, in ICE-style priority order (host > reflexive >
/// relay): a lower discriminant is preferred.
#[derive(Debug, Clone, Copy, PartialEq, Eq, PartialOrd, Ord, Structural)]
pub enum CandidateKind {
    /// A local interface address (LAN-adjacent peers). Leaks LAN topology,
    /// so gated behind `--direct=full`.
    Host,
    /// The peer's outer source as seen by the relay (from OBSERVED_ADDRESS).
    Reflexive,
    /// The relay-allocated `paddr` — always present, already validated.
    Relay,
}

impl CandidateKind {
    pub open spec fn spec_priority(self) -> u32 {
        match self {
            CandidateKind::Host => 126,
            CandidateKind::Reflexive => 100,
            CandidateKind::Relay => 0,
        }
    }

    /// ICE-style priority; higher is more preferred.
    pub fn priority(self) -> (p: u32)
        ensures
            p == self.spec_priority(),
    {
        match self {
            CandidateKind::Host => 126,
            CandidateKind::Reflexive => 100,
            CandidateKind::Relay => 0,
        }
    }
}

/// One transport-address candidate a peer offers. `seq` is the offering
/// peer's own numbering, referenced by punch pairs.
#[derive(Debug, Clone, Copy, PartialEq, Eq, Structural)]
pub struct Candidate {
    pub seq: u32,
    pub addr: SocketAddr,
    pub kind: CandidateKind,
}

/// A control message on inner stream 0.
#[derive(Debug, Clone, PartialEq, Eq)]
pub enum Control {
    /// Offer a candidate (mirrors the draft's ADD_ADDRESS).
    Candidate(Candidate),
    /// Ask to punch these `(local_seq, remote_seq)` pairs this `round`
    /// (mirrors PUNCH_ME_NOW). A higher round cancels lower ones.
    Punch { round: u32, pairs: Vec<(u32, u32)> },
    /// Retire a previously offered candidate (mirrors REMOVE_ADDRESS).
    Retire { seq: u32 },
}

/// Errors decoding a control message.
#[derive(Debug, Clone, Copy, PartialEq, Eq, Structural)]
pub enum WireError {
    BadCbor,
}

/// A message body behind its length.
pub open spec fn framed(body: Seq<u8>) -> Seq<u8> {
    bytes16(body.len() as u16) + body
}

/// The body of the message at the front of some bytes, if all of it is there.
pub open spec fn body_at(buf: Seq<u8>) -> Option<Seq<u8>> {
    if buf.len() < 2 || buf.len() < 2 + be16(buf, 0) {
        None
    } else {
        Some(buf.subrange(2, 2 + be16(buf, 0)))
    }
}

/// Length-delimit a message body (a 2-byte big-endian length prefix), so
/// messages frame cleanly on the control stream.
pub fn frame_message(body: &[u8]) -> (out: Vec<u8>)
    requires
        body@.len() <= 0xffff,
    ensures
        out@ == framed(body@),
{
    let mut out: Vec<u8> = Vec::new();
    push_u16(&mut out, body.len() as u16);
    out.extend_from_slice(body);
    proof {
        assert(out@ =~= framed(body@));
    }
    out
}

/// The number of bytes that the message at the front of `buf` takes, its
/// length included, or `None` if `buf` does not yet hold a whole message. The
/// body is what follows the first two bytes.
pub fn next_message(buf: &[u8]) -> (n: Option<usize>)
    ensures
        match body_at(buf@) {
            Some(body) => n matches Some(k) && k == 2 + body.len() && k <= buf@.len()
                && buf@.subrange(2, k as int) == body,
            None => n is None,
        },
{
    if buf.len() < 2 {
        return None;
    }
    let len: usize = read_u16(buf, 0) as usize;
    if buf.len() < 2 + len {
        return None;
    }
    Some(2 + len)
}

/// A message is found at the front of a stream as it was framed, whatever
/// follows it, and not before all of it is there.
pub proof fn lemma_message_roundtrip(body: Seq<u8>, rest: Seq<u8>, k: int)
    requires
        body.len() <= 0xffff,
        0 <= k < framed(body).len(),
    ensures
        body_at(framed(body) + rest) == Some(body),
        body_at(framed(body).take(k)) is None,
{
    let s = framed(body) + rest;
    assert(be16(s, 0) == body.len());
    assert(s.subrange(2, 2 + body.len() as int) =~= body);
    let t = framed(body).take(k);
    if k >= 2 {
        assert(be16(t, 0) == body.len());
    }
}

/// The bodies of the whole messages at the front of some bytes, in order.
pub open spec fn bodies(buf: Seq<u8>) -> Seq<Seq<u8>>
    decreases buf.len(),
{
    match body_at(buf) {
        Some(b) => seq![b] + bodies(buf.skip(2 + b.len() as int)),
        None => Seq::empty(),
    }
}

/// The contents of some byte strings.
pub open spec fn contents(v: Seq<Vec<u8>>) -> Seq<Seq<u8>> {
    v.map_values(|b: Vec<u8>| b@)
}

/// Split what a control stream carried into message bodies. An incomplete
/// message at the end is left out.
pub fn split_messages(buf: &[u8]) -> (out: Vec<Vec<u8>>)
    ensures
        contents(out@) == bodies(buf@),
{
    let mut out: Vec<Vec<u8>> = Vec::new();
    let mut rest: &[u8] = buf;
    proof {
        assert(contents(out@) + bodies(rest@) =~= bodies(buf@));
    }
    loop
        invariant
            contents(out@) + bodies(rest@) == bodies(buf@),
        ensures
            contents(out@) == bodies(buf@),
        decreases rest@.len(),
    {
        match next_message(rest) {
            None => {
                proof {
                    assert(contents(out@) + bodies(rest@) =~= contents(out@));
                }
                break;
            },
            Some(n) => {
                let mut body: Vec<u8> = Vec::new();
                body.extend_from_slice(slice_subrange(rest, 2, n));
                let ghost before = contents(out@);
                let ghost old_rest = rest@;
                out.push(body);
                rest = slice_subrange(rest, n, rest.len());
                proof {
                    let b = body_at(old_rest)->0;
                    assert(body@ =~= b);
                    assert(rest@ =~= old_rest.skip(2 + b.len() as int));
                    assert(contents(out@) =~= before.push(b));
                    assert(contents(out@) + bodies(rest@) =~= before + bodies(old_rest));
                }
            },
        }
    }
    out
}

/// Messages framed one behind the other.
pub open spec fn stream_of(msgs: Seq<Seq<u8>>) -> Seq<u8>
    decreases msgs.len(),
{
    if msgs.len() == 0 {
        Seq::empty()
    } else {
        framed(msgs[0]) + stream_of(msgs.drop_first())
    }
}

/// A stream of framed messages splits into those messages.
pub proof fn lemma_stream_roundtrip(msgs: Seq<Seq<u8>>)
    requires
        forall|i: int| 0 <= i < msgs.len() ==> (#[trigger] msgs[i]).len() <= 0xffff,
    ensures
        bodies(stream_of(msgs)) == msgs,
    decreases msgs.len(),
{
    if msgs.len() > 0 {
        let rest = stream_of(msgs.drop_first());
        let s = stream_of(msgs);
        lemma_message_roundtrip(msgs[0], rest, 0);
        assert(s.skip(2 + msgs[0].len() as int) =~= rest);
        assert forall|i: int| 0 <= i < msgs.drop_first().len() implies (
        #[trigger] msgs.drop_first()[i]).len() <= 0xffff by {
            assert(msgs[i + 1].len() <= 0xffff);
        }
        lemma_stream_roundtrip(msgs.drop_first());
        assert(bodies(s) =~= msgs);
    } else {
        assert(bodies(stream_of(msgs)) =~= msgs);
    }
}

/// Concurrency cap on candidate pairs probed per round.
pub const MAX_PAIRS_PER_ROUND: usize = 4;

/// A pair of candidates with its score.
#[derive(Debug, Clone, Copy, PartialEq, Eq, Structural)]
pub struct Pair {
    pub local_seq: u32,
    pub remote_seq: u32,
    pub addr: SocketAddr,
    pub score: u32,
}

/// The pair of two candidates.
pub open spec fn pair_of(l: Candidate, r: Candidate) -> Pair {
    Pair {
        local_seq: l.seq,
        remote_seq: r.seq,
        addr: r.addr,
        score: (l.kind.spec_priority() + r.kind.spec_priority()) as u32,
    }
}

/// Two candidates can be paired: a v4 socket cannot reach a v6 remote.
pub open spec fn pairable(l: Candidate, r: Candidate) -> bool {
    l.addr.ip is V4 <==> r.addr.ip is V4
}

/// The pairs of one local candidate, in order.
pub open spec fn pairs_with(l: Candidate, remote: Seq<Candidate>) -> Seq<Pair>
    decreases remote.len(),
{
    if remote.len() == 0 {
        Seq::empty()
    } else {
        let before = pairs_with(l, remote.drop_last());
        if pairable(l, remote.last()) {
            before.push(pair_of(l, remote.last()))
        } else {
            before
        }
    }
}

/// All pairs, in order.
pub open spec fn all_pairs(local: Seq<Candidate>, remote: Seq<Candidate>) -> Seq<Pair>
    decreases local.len(),
{
    if local.len() == 0 {
        Seq::empty()
    } else {
        all_pairs(local.drop_last(), remote) + pairs_with(local.last(), remote)
    }
}

/// A ranked list with a pair behind those that score no less.
pub open spec fn with_pair(v: Seq<Pair>, p: Pair) -> Seq<Pair>
    decreases v.len(),
{
    if v.len() == 0 {
        seq![p]
    } else if v.last().score >= p.score {
        v.push(p)
    } else {
        with_pair(v.drop_last(), p).push(v.last())
    }
}

/// By score, higher first; pairs of equal score keep their order.
pub open spec fn ranked(s: Seq<Pair>) -> Seq<Pair>
    decreases s.len(),
{
    if s.len() == 0 {
        Seq::empty()
    } else {
        with_pair(ranked(s.drop_last()), s.last())
    }
}

/// The first [`MAX_PAIRS_PER_ROUND`] pairs, without their scores.
pub open spec fn round_of(s: Seq<Pair>) -> Seq<(u32, u32, SocketAddr)> {
    s.take(
        if s.len() <= MAX_PAIRS_PER_ROUND {
            s.len() as int
        } else {
            MAX_PAIRS_PER_ROUND as int
        },
    ).map_values(|p: Pair| (p.local_seq, p.remote_seq, p.addr))
}

proof fn lemma_with_pair_at(v: Seq<Pair>, p: Pair, k: int)
    requires
        0 <= k <= v.len(),
        forall|i: int| k <= i < v.len() ==> (#[trigger] v[i]).score < p.score,
        k > 0 ==> v[k - 1].score >= p.score,
    ensures
        with_pair(v, p) == v.insert(k, p),
    decreases v.len(),
{
    if v.len() == 0 {
        assert(v.insert(0, p) =~= seq![p]);
    } else if k == v.len() {
        assert(v.insert(k, p) =~= v.push(p));
    } else {
        assert(v[v.len() - 1].score < p.score);
        lemma_with_pair_at(v.drop_last(), p, k);
        assert(with_pair(v.drop_last(), p).push(v.last()) =~= v.insert(k, p));
    }
}

fn rank(v: &mut Vec<Pair>, p: Pair)
    ensures
        final(v)@ == with_pair(old(v)@, p),
{
    let mut k: usize = v.len();
    while k > 0 && v[k - 1].score < p.score
        invariant
            k <= v@.len(),
            v@ == old(v)@,
            forall|i: int| k <= i < v@.len() ==> (#[trigger] v@[i]).score < p.score,
        decreases k,
    {
        k = k - 1;
    }
    proof {
        lemma_with_pair_at(v@, p, k as int);
    }
    v.insert(k, p);
}

/// Pair the client's own candidates with the server's offered ones, most
/// promising first (higher summed priority), capped at
/// [`MAX_PAIRS_PER_ROUND`] — the inner *client*'s job. Returns
/// `(local_seq, remote_seq)` pairs and the addresses to probe.
pub fn pair_candidates(local: &[Candidate], remote: &[Candidate]) -> (out: Vec<
    (u32, u32, SocketAddr),
>)
    ensures
        out@ == round_of(ranked(all_pairs(local@, remote@))),
{
    let mut sorted: Vec<Pair> = Vec::new();
    let ghost mut seen: Seq<Pair> = Seq::empty();
    let mut i: usize = 0;
    proof {
        assert(local@.take(0) =~= Seq::<Candidate>::empty());
    }
    while i < local.len()
        invariant
            i <= local@.len(),
            seen == all_pairs(local@.take(i as int), remote@),
            sorted@ == ranked(seen),
        decreases local@.len() - i,
    {
        let l = local[i];
        let ghost base = seen;
        let mut j: usize = 0;
        proof {
            assert(remote@.take(0) =~= Seq::<Candidate>::empty());
            assert(base + pairs_with(l, remote@.take(0)) =~= base);
        }
        while j < remote.len()
            invariant
                j <= remote@.len(),
                seen == base + pairs_with(l, remote@.take(j as int)),
                sorted@ == ranked(seen),
            decreases remote@.len() - j,
        {
            let r = remote[j];
            proof {
                assert(remote@.take(j + 1).drop_last() =~= remote@.take(j as int));
            }
            if l.addr.is_ipv4() == r.addr.is_ipv4() {
                let p = Pair {
                    local_seq: l.seq,
                    remote_seq: r.seq,
                    addr: r.addr,
                    score: l.kind.priority() + r.kind.priority(),
                };
                rank(&mut sorted, p);
                proof {
                    let before = seen;
                    seen = seen.push(p);
                    assert(seen.drop_last() =~= before);
                    assert(seen =~= base + pairs_with(l, remote@.take(j + 1)));
                }
            }
            j = j + 1;
        }
        proof {
            assert(remote@.take(j as int) =~= remote@);
            assert(local@.take(i + 1).drop_last() =~= local@.take(i as int));
        }
        i = i + 1;
    }
    proof {
        assert(local@.take(i as int) =~= local@);
    }
    let n: usize = if sorted.len() <= MAX_PAIRS_PER_ROUND {
        sorted.len()
    } else {
        MAX_PAIRS_PER_ROUND
    };
    let mut out: Vec<(u32, u32, SocketAddr)> = Vec::new();
    let mut k: usize = 0;
    while k < n
        invariant
            k <= n <= sorted@.len(),
            out@ == sorted@.take(k as int).map_values(
                |p: Pair| (p.local_seq, p.remote_seq, p.addr),
            ),
        decreases n - k,
    {
        let p = sorted[k];
        out.push((p.local_seq, p.remote_seq, p.addr));
        k = k + 1;
        proof {
            assert(out@ =~= sorted@.take(k as int).map_values(
                |p: Pair| (p.local_seq, p.remote_seq, p.addr),
            ));
        }
    }
    out
}

/// Ranking keeps the pairs and puts higher scores first.
pub proof fn lemma_ranked(s: Seq<Pair>)
    ensures
        ranked(s).to_multiset() =~= s.to_multiset(),
        ranked(s).len() == s.len(),
        forall|i: int, j: int|
            0 <= i < j < ranked(s).len() ==> (#[trigger] ranked(s)[i]).score >= (
            #[trigger] ranked(s)[j]).score,
    decreases s.len(),
{
    broadcast use vstd::seq_lib::group_to_multiset_ensures;

    if s.len() > 0 {
        lemma_ranked(s.drop_last());
        lemma_with_pair(ranked(s.drop_last()), s.last());
        assert(s.drop_last().push(s.last()) =~= s);
    } else {
        assert(ranked(s) =~= s);
    }
}

proof fn lemma_with_pair(v: Seq<Pair>, p: Pair)
    requires
        forall|i: int, j: int|
            0 <= i < j < v.len() ==> (#[trigger] v[i]).score >= (#[trigger] v[j]).score,
    ensures
        with_pair(v, p).to_multiset() =~= v.to_multiset().insert(p),
        with_pair(v, p).len() == v.len() + 1,
        forall|i: int, j: int|
            0 <= i < j < with_pair(v, p).len() ==> (#[trigger] with_pair(v, p)[i]).score >= (
            #[trigger] with_pair(v, p)[j]).score,
        forall|i: int|
            0 <= i < with_pair(v, p).len() ==> v.contains(#[trigger] with_pair(v, p)[i])
                || with_pair(v, p)[i] == p,
    decreases v.len(),
{
    broadcast use vstd::seq_lib::group_to_multiset_ensures;

    if v.len() == 0 {
        assert(v.push(p) =~= seq![p]);
    } else if v.last().score >= p.score {
        let w = v.push(p);
        assert forall|i: int| 0 <= i < w.len() implies v.contains(#[trigger] w[i]) || w[i] == p by {
            if i < v.len() {
                assert(v[i] == w[i]);
            }
        }
        assert forall|i: int, j: int| 0 <= i < j < w.len() implies (#[trigger] w[i]).score >= (
        #[trigger] w[j]).score by {
            if j == v.len() {
                assert(i == v.len() - 1 || v[i].score >= v[v.len() - 1].score);
            }
        }
    } else {
        let d = v.drop_last();
        let e = with_pair(d, p);
        let w = e.push(v.last());
        lemma_with_pair(d, p);
        assert(d.push(v.last()) =~= v);
        assert forall|i: int, j: int| 0 <= i < j < w.len() implies (#[trigger] w[i]).score >= (
        #[trigger] w[j]).score by {
            if j == e.len() {
                assert(d.contains(e[i]) || e[i] == p);
                if e[i] != p {
                    let k = choose|k: int| 0 <= k < d.len() && d[k] == e[i];
                    assert(v[k].score >= v[v.len() - 1].score);
                }
            }
        }
        assert forall|i: int| 0 <= i < w.len() implies v.contains(#[trigger] w[i]) || w[i] == p by {
            if i < e.len() {
                if e[i] != p {
                    let k = choose|k: int| 0 <= k < d.len() && d[k] == e[i];
                    assert(v[k] == w[i]);
                }
            } else {
                assert(v[v.len() - 1] == w[i]);
            }
        }
    }
}

/// A pair never crosses address families: it comes from a local and a remote
/// candidate of one family, and scores their priorities.
pub proof fn lemma_pairs_same_family(local: Seq<Candidate>, remote: Seq<Candidate>, p: Pair)
    requires
        all_pairs(local, remote).contains(p),
    ensures
        exists|l: Candidate, r: Candidate|
            #![trigger local.contains(l), remote.contains(r)]
            local.contains(l) && remote.contains(r) && pairable(l, r) && p == pair_of(l, r),
    decreases local.len(),
{
    if local.len() > 0 {
        let a = all_pairs(local.drop_last(), remote);
        let b = pairs_with(local.last(), remote);
        let k = choose|k: int| 0 <= k < (a + b).len() && (a + b)[k] == p;
        if k < a.len() {
            assert(a[k] == p);
            lemma_pairs_same_family(local.drop_last(), remote, p);
            let (l, r) = choose|l: Candidate, r: Candidate|
                #![trigger local.drop_last().contains(l), remote.contains(r)]
                local.drop_last().contains(l) && remote.contains(r) && pairable(l, r) && p
                    == pair_of(l, r);
            let i = choose|i: int| 0 <= i < local.drop_last().len() && local.drop_last()[i] == l;
            assert(local[i] == l);
            assert(local.contains(l) && remote.contains(r));
        } else {
            assert(b[k - a.len()] == p);
            lemma_pairs_with_family(local.last(), remote, p);
            let r = choose|r: Candidate| #[trigger]
                remote.contains(r) && pairable(local.last(), r) && p == pair_of(local.last(), r);
            assert(local[local.len() - 1] == local.last());
            assert(local.contains(local.last()) && remote.contains(r));
        }
    }
}

proof fn lemma_pairs_with_family(l: Candidate, remote: Seq<Candidate>, p: Pair)
    requires
        pairs_with(l, remote).contains(p),
    ensures
        exists|r: Candidate| #[trigger]
            remote.contains(r) && pairable(l, r) && p == pair_of(l, r),
    decreases remote.len(),
{
    if remote.len() > 0 {
        let a = pairs_with(l, remote.drop_last());
        let k = choose|k: int| 0 <= k < pairs_with(l, remote).len() && pairs_with(l, remote)[k] == p;
        if k < a.len() {
            assert(a[k] == p);
            lemma_pairs_with_family(l, remote.drop_last(), p);
            let r = choose|r: Candidate| #[trigger]
                remote.drop_last().contains(r) && pairable(l, r) && p == pair_of(l, r);
            let i = choose|i: int| 0 <= i < remote.drop_last().len() && remote.drop_last()[i] == r;
            assert(remote[i] == r);
            assert(remote.contains(r));
        } else {
            assert(remote[remote.len() - 1] == remote.last());
            assert(remote.contains(remote.last()));
        }
    }
}

/// A message on the wire: its length in two bytes, high byte first, and then
/// the message.
pub proof fn lemma_framed(body: Seq<u8>)
    requires
        body.len() <= 0xffff,
    ensures
        framed(body).len() == body.len() + 2,
        framed(body)[0] * 256 + framed(body)[1] == body.len(),
        framed(body).skip(2) == body,
{
    assert(framed(body).skip(2) =~= body);
}

/// Every local candidate is paired with every remote candidate of its family.
pub proof fn lemma_pairs_complete(local: Seq<Candidate>, remote: Seq<Candidate>, i: int, j: int)
    requires
        0 <= i < local.len(),
        0 <= j < remote.len(),
        local[i].addr.ip is V4 <==> remote[j].addr.ip is V4,
    ensures
        all_pairs(local, remote).contains(
            Pair {
                local_seq: local[i].seq,
                remote_seq: remote[j].seq,
                addr: remote[j].addr,
                score: (local[i].kind.spec_priority() + remote[j].kind.spec_priority()) as u32,
            },
        ),
    decreases local.len(),
{
    let d = local.drop_last();
    let before = all_pairs(d, remote);
    let mine = pairs_with(local.last(), remote);
    let all = all_pairs(local, remote);
    let p = pair_of(local[i], remote[j]);
    if i < d.len() {
        lemma_pairs_complete(d, remote, i, j);
        let k = choose|k: int| 0 <= k < before.len() && before[k] == p;
        assert(all[k] == p);
    } else {
        lemma_pairs_with(local.last(), remote, j);
        let k = choose|k: int| 0 <= k < mine.len() && mine[k] == p;
        assert(all[before.len() + k] == p);
    }
}

proof fn lemma_pairs_with(l: Candidate, remote: Seq<Candidate>, j: int)
    requires
        0 <= j < remote.len(),
        pairable(l, remote[j]),
    ensures
        pairs_with(l, remote).contains(pair_of(l, remote[j])),
    decreases remote.len(),
{
    let d = remote.drop_last();
    let before = pairs_with(l, d);
    let p = pair_of(l, remote[j]);
    if j < d.len() {
        lemma_pairs_with(l, d, j);
        let k = choose|k: int| 0 <= k < before.len() && before[k] == p;
        assert(pairs_with(l, remote)[k] == p);
    } else {
        assert(pairs_with(l, remote)[before.len() as int] == p);
    }
}

/// A round holds the pair of every two candidates of one family, unless it is
/// full with four pairs, none of which scores less.
pub proof fn lemma_round(local: Seq<Candidate>, remote: Seq<Candidate>, i: int, j: int)
    requires
        0 <= i < local.len(),
        0 <= j < remote.len(),
        local[i].addr.ip is V4 <==> remote[j].addr.ip is V4,
    ensures
        ({
            let pairs = ranked(all_pairs(local, remote));
            let round = round_of(pairs);
            let score = local[i].kind.spec_priority() + remote[j].kind.spec_priority();
            &&& round.len() <= 4
            &&& round.len() <= pairs.len()
            &&& forall|k: int|
                0 <= k < round.len() ==> #[trigger] round[k] == (
                    pairs[k].local_seq,
                    pairs[k].remote_seq,
                    pairs[k].addr,
                )
            &&& round.contains((local[i].seq, remote[j].seq, remote[j].addr)) || (round.len() == 4
                && forall|k: int| 0 <= k < 4 ==> (#[trigger] pairs[k]).score >= score)
        }),
{
    let all = all_pairs(local, remote);
    let pairs = ranked(all);
    let round = round_of(pairs);
    let p = pair_of(local[i], remote[j]);
    lemma_pairs_complete(local, remote, i, j);
    lemma_ranked(all);
    all.to_multiset_ensures();
    pairs.to_multiset_ensures();
    assert(all.to_multiset().count(p) > 0);
    assert(pairs.to_multiset().count(p) > 0);
    assert(pairs.contains(p));
    let k = choose|k: int| 0 <= k < pairs.len() && pairs[k] == p;
    if k < 4 {
        assert(round[k] == (p.local_seq, p.remote_seq, p.addr));
    }
}

/// Ranking leaves pairs of one score in the order they had.
pub proof fn lemma_ranked_stable(s: Seq<Pair>, score: u32)
    ensures
        ranked(s).filter(|p: Pair| p.score == score) == s.filter(|p: Pair| p.score == score),
    decreases s.len(),
{
    let f = |p: Pair| p.score == score;
    reveal(Seq::filter);
    if s.len() > 0 {
        let d = s.drop_last();
        lemma_ranked_stable(d, score);
        lemma_with_pair_stable(ranked(d), s.last(), score);
        assert(ranked(d).push(s.last()).drop_last() =~= ranked(d));
    }
}

proof fn lemma_filter_push(s: Seq<Pair>, p: Pair, f: spec_fn(Pair) -> bool)
    ensures
        s.push(p).filter(f) == if f(p) {
            s.filter(f).push(p)
        } else {
            s.filter(f)
        },
{
    reveal(Seq::filter);
    assert(s.push(p).drop_last() =~= s);
}

proof fn lemma_with_pair_stable(v: Seq<Pair>, p: Pair, score: u32)
    ensures
        with_pair(v, p).filter(|q: Pair| q.score == score) == v.push(p).filter(
            |q: Pair| q.score == score,
        ),
    decreases v.len(),
{
    let f = |q: Pair| q.score == score;
    reveal(Seq::filter);
    if v.len() == 0 {
        assert(v.push(p) =~= seq![p]);
    } else if v.last().score < p.score {
        let d = v.drop_last();
        let w = with_pair(d, p);
        lemma_with_pair_stable(d, p, score);
        lemma_filter_push(w, v.last(), f);
        lemma_filter_push(v, p, f);
        lemma_filter_push(d, v.last(), f);
        lemma_filter_push(d, p, f);
        assert(d.push(v.last()) =~= v);
    }
}

} // verus!
