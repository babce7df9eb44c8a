//! Predicting a symmetric NAT's peer-facing port (`--punch-strategy predict`).
//!
//! A symmetric NAT gives a socket a *different* external port per destination,
//! so the reflexive address the relay observed is not the address the peer's
//! packets will arrive from, and the ordinary punch fails. But some symmetric
//! NATs allocate those ports *sequentially*. For those, the peer-facing port is
//! predictable: sample a few allocations, measure the stride, and offer the
//! next port — plus a small window, since other traffic may nudge the counter
//! between the sample and the punch.
//!
//! It remains best-effort. A random allocator offers nothing to predict, and
//! the session falls back to the relay.

use vstd::prelude::*;

use crate::net::{IpAddr, SocketAddr};

verus! {

/// How many back-to-back aux sockets to sample the NAT's allocation with.
pub const SAMPLE_COUNT: usize = 3;

/// A stride larger than this reads as random, not sequential.
pub const MAX_STRIDE: i64 = 8;

/// Offer ±this many ports around the predicted one.
pub const PREDICT_SPAN: u16 = 6;

/// A NAT's port-mapping behaviour, inferred from reflexive samples of
/// back-to-back sockets.
#[derive(Debug, Clone, Copy, PartialEq, Eq, Structural)]
pub enum Mapping {
    /// Consecutive allocations move by a constant stride, so the next port is
    /// predictable (stride 0 is a port-overloading NAT that reuses one port).
    Sequential { stride: i64 },
    /// Unpredictable — only the relay can bridge such a NAT.
    Random,
}

/// Each port follows the one before by `stride`.
pub open spec fn strides(ports: Seq<u16>, stride: int) -> bool {
    forall|i: int, j: int|
        0 <= i && j == i + 1 && j < ports.len() ==> #[trigger] ports[j] - #[trigger] ports[i]
            == stride
}

/// What the samples show.
pub open spec fn mapping_of(ports: Seq<u16>) -> Mapping {
    let first = ports[1] - ports[0];
    if ports.len() >= 2 && strides(ports, first) && -MAX_STRIDE <= first <= MAX_STRIDE {
        Mapping::Sequential { stride: first as i64 }
    } else {
        Mapping::Random
    }
}

/// Classify from the external ports of sockets opened back-to-back: a constant,
/// small inter-sample stride is a sequential allocator; anything else is random.
pub fn classify(ports: &[u16]) -> (m: Mapping)
    ensures
        m == mapping_of(ports@),
{
    if ports.len() < 2 {
        return Mapping::Random;
    }
    let first: i64 = ports[1] as i64 - ports[0] as i64;
    let mut k: usize = 1;
    while k < ports.len()
        invariant
            1 <= k <= ports@.len(),
            first == ports@[1] - ports@[0],
            forall|i: int, j: int|
                0 <= i && j == i + 1 && j < k ==> #[trigger] ports@[j] - #[trigger] ports@[i]
                    == first,
        decreases ports@.len() - k,
    {
        if ports[k] as i64 - ports[k - 1] as i64 != first {
            proof {
                assert(!strides(ports@, first as int)) by {
                    assert(ports@[k as int] - ports@[k - 1] != first);
                }
            }
            return Mapping::Random;
        }
        k = k + 1;
    }
    if -MAX_STRIDE <= first && first <= MAX_STRIDE {
        Mapping::Sequential { stride: first }
    } else {
        Mapping::Random
    }
}

/// The first port of the window: never port 0, which is no destination.
pub open spec fn window_low(last_port: u16, stride: i64, span: u16) -> int {
    let lo = last_port + stride - span;
    if lo < 1 {
        1
    } else {
        lo
    }
}

/// The last port of the window.
pub open spec fn window_high(last_port: u16, stride: i64, span: u16) -> int {
    let hi = last_port + stride + span;
    if hi > u16::MAX {
        u16::MAX as int
    } else {
        hi
    }
}

/// The addresses of a window of ports.
pub open spec fn window(ip: IpAddr, lo: int, hi: int) -> Seq<SocketAddr> {
    Seq::new(
        if hi < lo {
            0
        } else {
            (hi - lo + 1) as nat
        },
        |i: int| SocketAddr::at(ip, (lo + i) as u16),
    )
}

/// The peer-facing addresses to advertise: the sequential allocator's next port
/// after `last_port`, plus a ± window for slack.
pub fn predict_range(ip: IpAddr, last_port: u16, stride: i64, span: u16) -> (out: Vec<SocketAddr>)
    requires
        i64::MIN <= last_port + stride - span,
        last_port + stride + span <= i64::MAX,
    ensures
        out@ == window(
            ip,
            window_low(last_port, stride, span),
            window_high(last_port, stride, span),
        ),
{
    let base: i64 = last_port as i64 + stride;
    let lo: i64 = if base - (span as i64) < 1 {
        1
    } else {
        base - span as i64
    };
    let hi: i64 = if base + span as i64 > 65535 {
        65535
    } else {
        base + span as i64
    };
    let mut out: Vec<SocketAddr> = Vec::new();
    let mut p: i64 = lo;
    proof {
        assert(out@ =~= window(ip, lo as int, lo - 1));
    }
    while p <= hi
        invariant
            1 <= lo <= p,
            hi <= 65535,
            p <= hi + 1 || p == lo,
            out@ == window(ip, lo as int, p - 1),
        decreases hi + 1 - p,
    {
        out.push(SocketAddr::new(ip, p as u16));
        p = p + 1;
        proof {
            assert(out@ =~= window(ip, lo as int, p - 1));
        }
    }
    proof {
        assert(out@ =~= window(ip, lo as int, hi as int));
    }
    out
}

/// The ports of some addresses.
pub open spec fn ports_of(addrs: Seq<SocketAddr>) -> Seq<u16> {
    addrs.map_values(|a: SocketAddr| a.port)
}

/// The predicted addresses for some samples.
pub open spec fn predicted(samples: Seq<SocketAddr>) -> Seq<SocketAddr> {
    match mapping_of(ports_of(samples)) {
        Mapping::Sequential { stride } => window(
            samples.last().ip,
            window_low(samples.last().port, stride, PREDICT_SPAN),
            window_high(samples.last().port, stride, PREDICT_SPAN),
        ),
        Mapping::Random => Seq::empty(),
    }
}

/// From samples of this peer's NAT: if it allocates sequentially, the
/// predicted peer-facing addresses to advertise alongside the ordinary
/// candidates. A random allocator gives nothing — that is the case the relay
/// carries, and saying so plainly is more useful than a futile scan.
pub fn predicted_candidates(samples: &[SocketAddr]) -> (out: Vec<SocketAddr>)
    ensures
        out@ == predicted(samples@),
{
    let mut ports: Vec<u16> = Vec::new();
    let mut i: usize = 0;
    while i < samples.len()
        invariant
            i <= samples@.len(),
            ports@ == ports_of(samples@.take(i as int)),
        decreases samples@.len() - i,
    {
        ports.push(samples[i].port);
        i = i + 1;
        proof {
            assert(ports@ =~= ports_of(samples@.take(i as int)));
        }
    }
    proof {
        assert(samples@.take(samples@.len() as int) =~= samples@);
    }
    if samples.len() == 0 {
        return Vec::new();
    }
    let last = samples[samples.len() - 1];
    match classify(ports.as_slice()) {
        Mapping::Sequential { stride } => predict_range(last.ip, last.port, stride, PREDICT_SPAN),
        Mapping::Random => Vec::new(),
    }
}

/// The window holds the next port, whenever that is a port, and only ports
/// from 1 to 65535 that are within `span` of it.
pub proof fn lemma_window(ip: IpAddr, last_port: u16, stride: i64, span: u16, i: int)
    requires
        i64::MIN <= last_port + stride - span,
        last_port + stride + span <= i64::MAX,
    ensures
        ({
            let lo = window_low(last_port, stride, span);
            let hi = window_high(last_port, stride, span);
            let w = window(ip, lo, hi);
            let next = last_port + stride;
            &&& 0 <= i < w.len() ==> w[i].port >= 1 && w[i].ip == ip && -span <= w[i].port - next
                <= span
            &&& 1 <= next <= u16::MAX ==> 0 <= next - lo < w.len() && w[next - lo].port == next
        }),
{
}

/// The window holds every port from 1 to 65535 that is within `span` of the
/// next one, and holds them in ascending order.
pub proof fn lemma_window_full(ip: IpAddr, last_port: u16, stride: i64, span: u16, port: u16, i: int)
    requires
        i64::MIN <= last_port + stride - span,
        last_port + stride + span <= i64::MAX,
    ensures
        ({
            let w = window(
                ip,
                window_low(last_port, stride, span),
                window_high(last_port, stride, span),
            );
            &&& port >= 1 && -span <= port - (last_port + stride) <= span ==> w.contains(
                SocketAddr::at(ip, port),
            )
            &&& 0 <= i && i + 1 < w.len() ==> w[i + 1].port == w[i].port + 1
        }),
{
    let lo = window_low(last_port, stride, span);
    let hi = window_high(last_port, stride, span);
    let w = window(ip, lo, hi);
    if port >= 1 && -span <= port - (last_port + stride) <= span {
        assert(lo <= port <= hi);
        assert(w[port - lo] == SocketAddr::at(ip, port));
    }
}

/// Ports that go up or down by the same step, of at most eight, are sequential
/// with that step. Fewer than two ports, two steps that differ, or a larger
/// step make them random.
pub proof fn lemma_mapping(ports: Seq<u16>, stride: i64, i: int)
    ensures
        ports.len() < 2 ==> mapping_of(ports) == Mapping::Random,
        ports.len() >= 2 && -8 <= stride <= 8 && (forall|j: int|
            0 < j < ports.len() ==> #[trigger] ports[j] == ports[0] + j * stride) ==> mapping_of(
            ports,
        ) == (Mapping::Sequential { stride }),
        0 < i && i + 1 < ports.len() && ports[i + 1] - ports[i] != ports[1] - ports[0]
            ==> mapping_of(ports) == Mapping::Random,
        ports.len() >= 2 && !(-8 <= ports[1] - ports[0] <= 8) ==> mapping_of(ports)
            == Mapping::Random,
{
    if ports.len() >= 2 && -8 <= stride <= 8 && (forall|j: int|
        0 < j < ports.len() ==> #[trigger] ports[j] == ports[0] + j * stride) {
        assert(ports[1] == ports[0] + 1 * stride);
        assert forall|k: int, j: int| 0 <= k && j == k + 1 && j < ports.len() implies
            #[trigger] ports[j] - #[trigger] ports[k] == stride by {
            assert(ports[j] == ports[0] + j * stride);
            assert(k > 0 ==> ports[k] == ports[0] + k * stride);
            assert((k + 1) * stride == k * stride + stride) by (nonlinear_arith);
            assert(0 * stride == 0);
        }
    }
}

/// After samples that step by `stride`, the addresses tried are those of the
/// last sample's host whose port is within the span of one more step.
pub proof fn lemma_predicted(samples: Seq<SocketAddr>, stride: i64, port: u16)
    requires
        mapping_of(ports_of(samples)) == (Mapping::Sequential { stride }),
    ensures
        samples.len() >= 2,
        port >= 1 && -PREDICT_SPAN <= port - (samples.last().port + stride) <= PREDICT_SPAN
            ==> predicted(samples).contains(SocketAddr::at(samples.last().ip, port)),
        forall|i: int|
            0 <= i < predicted(samples).len() ==> (#[trigger] predicted(samples)[i]).ip
                == samples.last().ip && -PREDICT_SPAN <= predicted(samples)[i].port - (
            samples.last().port + stride) <= PREDICT_SPAN,
{
    let last = samples.last();
    lemma_window_full(last.ip, last.port, stride, PREDICT_SPAN, port, 0);
    assert forall|i: int| 0 <= i < predicted(samples).len() implies (
    #[trigger] predicted(samples)[i]).ip == last.ip && -PREDICT_SPAN <= predicted(samples)[i].port
        - (last.port + stride) <= PREDICT_SPAN by {
        lemma_window(last.ip, last.port, stride, PREDICT_SPAN, i);
    }
}

} // verus!
