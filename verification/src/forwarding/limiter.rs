//! Per-session token-bucket rate limiting: packets/sec and bytes/sec with a
//! one-second burst capacity. Exceeding traffic is silently dropped (datagram
//! semantics).

use vstd::prelude::*;

use crate::clock::Clock;

verus! {

/// Per-session limits; 0 means unlimited for that dimension.
#[derive(Debug, Clone, Copy)]
pub struct RateLimits {
    pub packets_per_sec: u64,
    pub bytes_per_sec: u64,
}

impl RateLimits {
    pub open spec fn spec_unlimited(self) -> bool {
        self.packets_per_sec == 0 && self.bytes_per_sec == 0
    }

    pub fn is_unlimited(&self) -> (v: bool)
        ensures
            v == self.spec_unlimited(),
    {
        self.packets_per_sec == 0 && self.bytes_per_sec == 0
    }
}

impl Default for RateLimits {
    /// Unlimited in both dimensions.
    fn default() -> (r: Self)
        ensures
            r.packets_per_sec == 0,
            r.bytes_per_sec == 0,
    {
        RateLimits { packets_per_sec: 0, bytes_per_sec: 0 }
    }
}

/// What the two buckets of a session hold, and when they were last refilled
/// (in nanoseconds of the session's clock).
#[derive(Debug, Clone, Copy, PartialEq, Eq, Structural)]
pub struct Buckets {
    pub packet_tokens: u64,
    pub byte_tokens: u64,
    pub last_refill: u64,
}

/// Token buckets for one session. Capacity equals the per-second rate,
/// i.e. up to one second of burst.
#[derive(Debug)]
pub struct SessionLimiter {
    limits: RateLimits,
    state: Buckets,
    clock: Clock,
}

/// One second's worth in each bucket, at the start of the clock.
pub open spec fn full_buckets(limits: RateLimits) -> Buckets {
    Buckets {
        packet_tokens: limits.packets_per_sec,
        byte_tokens: limits.bytes_per_sec,
        last_refill: 0,
    }
}

/// Tokens that `nanos` nanoseconds add at `rate` per second.
pub open spec fn earned(rate: u64, nanos: nat) -> nat {
    rate as nat * (nanos / 1000) / 1_000_000
}

/// A bucket after `nanos` nanoseconds: what it held plus what it earned,
/// capped at one second's worth.
pub open spec fn refilled(tokens: u64, rate: u64, nanos: nat) -> u64 {
    if tokens + earned(rate, nanos) <= rate {
        (tokens + earned(rate, nanos)) as u64
    } else {
        rate
    }
}

/// The buckets, refilled up to `now`. A clock reading no later than the last
/// refill changes nothing.
pub open spec fn refilled_at(limits: RateLimits, b: Buckets, now: u64) -> Buckets {
    if now <= b.last_refill {
        b
    } else {
        let nanos = (now - b.last_refill) as nat;
        Buckets {
            packet_tokens: refilled(b.packet_tokens, limits.packets_per_sec, nanos),
            byte_tokens: refilled(b.byte_tokens, limits.bytes_per_sec, nanos),
            last_refill: now,
        }
    }
}

/// A packet of `bytes` bytes is within what the buckets hold.
pub open spec fn affordable(limits: RateLimits, b: Buckets, bytes: u64) -> bool {
    &&& limits.packets_per_sec == 0 || b.packet_tokens >= 1
    &&& limits.bytes_per_sec == 0 || b.byte_tokens >= bytes
}

/// The buckets after paying for a packet.
pub open spec fn paid(limits: RateLimits, b: Buckets, bytes: u64) -> Buckets {
    Buckets {
        packet_tokens: if limits.packets_per_sec > 0 {
            (b.packet_tokens - 1) as u64
        } else {
            b.packet_tokens
        },
        byte_tokens: if limits.bytes_per_sec > 0 {
            (b.byte_tokens - bytes) as u64
        } else {
            b.byte_tokens
        },
        last_refill: b.last_refill,
    }
}

/// What becomes of the buckets, and whether the packet is admitted.
pub open spec fn admission(
    limits: RateLimits,
    b: Buckets,
    bytes: u64,
    now: u64,
) -> (bool, Buckets) {
    if limits.spec_unlimited() {
        (true, b)
    } else {
        let r = refilled_at(limits, b, now);
        if affordable(limits, r, bytes) {
            (true, paid(limits, r, bytes))
        } else {
            (false, r)
        }
    }
}

/// No bucket holds more than one second's worth.
pub open spec fn within_burst(limits: RateLimits, b: Buckets) -> bool {
    b.packet_tokens <= limits.packets_per_sec && b.byte_tokens <= limits.bytes_per_sec
}

/// What a run of packets, each with its size and arrival time, leaves in the
/// buckets, and how many packets and bytes of it are admitted.
pub open spec fn run(
    limits: RateLimits,
    b: Buckets,
    packets: Seq<(u64, u64)>,
) -> (Buckets, nat, nat)
    decreases packets.len(),
{
    if packets.len() == 0 {
        (b, 0, 0)
    } else {
        let (c, count, total) = run(limits, b, packets.drop_last());
        let (bytes, now) = packets.last();
        let (ok, after) = admission(limits, c, bytes, now);
        if ok {
            (after, count + 1, total + bytes as nat)
        } else {
            (after, count, total)
        }
    }
}

/// Tokens earned over two stretches of time are at most those earned over
/// both together.
proof fn lemma_earned_adds(rate: u64, a: nat, b: nat)
    ensures
        earned(rate, a) + earned(rate, b) <= earned(rate, a + b),
{
    let r = rate as nat;
    let x = a / 1000;
    let y = b / 1000;
    let z = (a + b) / 1000;
    assert(x + y <= z);
    assert(r * (x + y) == r * x + r * y) by (nonlinear_arith);
    assert(r * (x + y) <= r * z) by (nonlinear_arith)
        requires
            x + y <= z,
            r >= 0,
    ;
    assert(r * x / 1_000_000 + r * y / 1_000_000 <= (r * x + r * y) / 1_000_000);
    assert((r * x + r * y) / 1_000_000 <= r * z / 1_000_000);
}

/// Over any run, a session gets through at most its one-second burst plus
/// what its rate earns in the time the run takes, in packets and in bytes.
pub proof fn lemma_rate_bound(limits: RateLimits, b: Buckets, packets: Seq<(u64, u64)>)
    requires
        within_burst(limits, b),
    ensures
        ({
            let (after, count, total) = run(limits, b, packets);
            let nanos = (after.last_refill - b.last_refill) as nat;
            &&& after.last_refill >= b.last_refill
            &&& within_burst(limits, after)
            &&& limits.packets_per_sec > 0 ==> count + after.packet_tokens <= b.packet_tokens
                + earned(limits.packets_per_sec, nanos)
            &&& limits.bytes_per_sec > 0 ==> total + after.byte_tokens <= b.byte_tokens + earned(
                limits.bytes_per_sec,
                nanos,
            )
        }),
    decreases packets.len(),
{
    if packets.len() == 0 {
        assert(earned(limits.packets_per_sec, 0) == 0) by (nonlinear_arith);
        assert(earned(limits.bytes_per_sec, 0) == 0) by (nonlinear_arith);
    } else {
        lemma_rate_bound(limits, b, packets.drop_last());
        let (c, count, total) = run(limits, b, packets.drop_last());
        let (bytes, now) = packets.last();
        let (ok, after) = admission(limits, c, bytes, now);
        if !limits.spec_unlimited() {
            if now > c.last_refill {
                let before = (c.last_refill - b.last_refill) as nat;
                let step = (now - c.last_refill) as nat;
                lemma_earned_adds(limits.packets_per_sec, before, step);
                lemma_earned_adds(limits.bytes_per_sec, before, step);
            }
        }
    }
}

/// What a rate earns: never more than its share of the time, and short of it
/// by less than one token and what a microsecond earns; a whole second earns
/// one second's worth, and no time earns nothing.
pub proof fn lemma_earned(rate: u64, nanos: nat)
    ensures
        earned(rate, nanos) * 1_000_000_000 <= rate * nanos,
        rate * nanos < (earned(rate, nanos) + 1) * 1_000_000_000 + rate * 1000,
        earned(rate, 0) == 0,
        earned(rate, 1_000_000_000) == rate,
{
    let r = rate as int;
    let n = nanos as int;
    let u = n / 1000;
    let t = r * u / 1_000_000;
    assert(1000 * u <= n < 1000 * u + 1000);
    assert(r * (1000 * u) <= r * n <= r * (1000 * u + 1000)) by (nonlinear_arith)
        requires
            1000 * u <= n < 1000 * u + 1000,
            r >= 0,
    ;
    assert(r * (1000 * u) == 1000 * (r * u)) by (nonlinear_arith);
    assert(r * (1000 * u + 1000) == 1000 * (r * u) + 1000 * r) by (nonlinear_arith);
    assert(1_000_000 * t <= r * u < 1_000_000 * t + 1_000_000);
    assert(r * 0 == 0);
    assert(r * 1_000_000 / 1_000_000 == r) by (nonlinear_arith);
}

/// A packet is admitted exactly if both buckets, with what they earned since
/// they were last looked at and no fuller than one second's worth, can pay for
/// it; a dimension without a limit always can. An admitted packet costs one
/// packet and its bytes, a refused one nothing.
pub proof fn lemma_admission(limits: RateLimits, b: Buckets, bytes: u64, now: u64)
    requires
        within_burst(limits, b),
    ensures
        ({
            let nanos = if now > b.last_refill {
                (now - b.last_refill) as nat
            } else {
                0
            };
            let p = b.packet_tokens + earned(limits.packets_per_sec, nanos);
            let q = b.byte_tokens + earned(limits.bytes_per_sec, nanos);
            let packets = if p <= limits.packets_per_sec {
                p
            } else {
                limits.packets_per_sec as int
            };
            let room = if q <= limits.bytes_per_sec {
                q
            } else {
                limits.bytes_per_sec as int
            };
            let (ok, after) = admission(limits, b, bytes, now);
            &&& ok <==> (limits.packets_per_sec == 0 || packets >= 1) && (limits.bytes_per_sec == 0
                || room >= bytes)
            &&& limits.packets_per_sec > 0 ==> after.packet_tokens == if ok {
                packets - 1
            } else {
                packets
            }
            &&& limits.bytes_per_sec > 0 ==> after.byte_tokens == if ok {
                room - bytes
            } else {
                room
            }
            &&& limits.packets_per_sec > 0 || limits.bytes_per_sec > 0 ==> after.last_refill
                == if now > b.last_refill {
                now
            } else {
                b.last_refill
            }
            &&& within_burst(limits, after)
        }),
{
    lemma_earned(limits.packets_per_sec, 0);
    lemma_earned(limits.bytes_per_sec, 0);
}

/// A session that starts out may send one second's worth at once: every packet
/// of a run that stays within both limits is admitted.
pub proof fn lemma_burst(limits: RateLimits, packets: Seq<(u64, u64)>)
    requires
        limits.packets_per_sec == 0 || packets.len() <= limits.packets_per_sec,
        limits.bytes_per_sec == 0 || sizes(packets) <= limits.bytes_per_sec,
    ensures
        run(limits, full_buckets(limits), packets).1 == packets.len(),
        run(limits, full_buckets(limits), packets).2 == sizes(packets),
{
    lemma_burst_left(limits, packets);
}

/// The bytes of a run of packets.
pub open spec fn sizes(packets: Seq<(u64, u64)>) -> nat
    decreases packets.len(),
{
    if packets.len() == 0 {
        0
    } else {
        sizes(packets.drop_last()) + packets.last().0 as nat
    }
}

proof fn lemma_burst_left(limits: RateLimits, packets: Seq<(u64, u64)>)
    requires
        limits.packets_per_sec == 0 || packets.len() <= limits.packets_per_sec,
        limits.bytes_per_sec == 0 || sizes(packets) <= limits.bytes_per_sec,
    ensures
        ({
            let (b, count, total) = run(limits, full_buckets(limits), packets);
            &&& count == packets.len()
            &&& total == sizes(packets)
            &&& within_burst(limits, b)
            &&& b.packet_tokens + packets.len() >= limits.packets_per_sec
            &&& b.byte_tokens + sizes(packets) >= limits.bytes_per_sec
        }),
    decreases packets.len(),
{
    if packets.len() > 0 {
        let d = packets.drop_last();
        lemma_burst_left(limits, d);
        let b = run(limits, full_buckets(limits), d).0;
        let (bytes, now) = packets.last();
        lemma_admission(limits, b, bytes, now);
    }
}

/// Adds what a bucket earned in `nanos` nanoseconds.
fn refill(tokens: u64, rate: u64, nanos: u64) -> (r: u64)
    ensures
        r == refilled(tokens, rate, nanos as nat),
{
    let micros: u128 = (nanos / 1000) as u128;
    assert(rate as nat * micros as nat <= 0xffff_ffff_ffff_ffff * 0xffff_ffff_ffff_ffff)
        by (nonlinear_arith)
        requires
            rate <= 0xffff_ffff_ffff_ffff,
            micros <= 0xffff_ffff_ffff_ffff,
    ;
    let add: u128 = rate as u128 * micros / 1_000_000;
    let total: u128 = tokens as u128 + add;
    if total <= rate as u128 {
        total as u64
    } else {
        rate
    }
}

impl SessionLimiter {
    pub closed spec fn spec_limits(self) -> RateLimits {
        self.limits
    }

    pub closed spec fn buckets(self) -> Buckets {
        self.state
    }

    /// Full buckets, at the start of the limiter's clock.
    pub fn new(limits: RateLimits) -> (l: Self)
        ensures
            l.spec_limits() == limits,
            l.buckets() == full_buckets(limits),
    {
        SessionLimiter {
            limits,
            state: Buckets {
                packet_tokens: limits.packets_per_sec,
                byte_tokens: limits.bytes_per_sec,
                last_refill: 0,
            },
            clock: Clock::start(),
        }
    }

    /// The limiter's clock, in nanoseconds since the limiter was made.
    pub fn now(&self) -> u64 {
        self.clock.now()
    }

    /// Try to admit one packet of `bytes` length, now.
    pub fn try_consume(&mut self, bytes: u64) -> (admitted: bool)
        ensures
            final(self).spec_limits() == old(self).spec_limits(),
            exists|now: u64|
                (admitted, final(self).buckets()) == #[trigger] admission(
                    old(self).spec_limits(),
                    old(self).buckets(),
                    bytes,
                    now,
                ),
    {
        let now: u64 = self.now();
        self.try_consume_at(bytes, now)
    }

    /// Try to admit one packet of `bytes` length at `now`, in nanoseconds of
    /// the limiter's clock.
    pub fn try_consume_at(&mut self, bytes: u64, now: u64) -> (admitted: bool)
        ensures
            final(self).spec_limits() == old(self).spec_limits(),
            (admitted, final(self).buckets()) == admission(
                old(self).spec_limits(),
                old(self).buckets(),
                bytes,
                now,
            ),
    {
        if self.limits.is_unlimited() {
            return true;
        }
        // Refill proportionally to elapsed time, capped at one second's
        // worth of tokens.
        let last: u64 = self.state.last_refill;
        if now > last {
            let elapsed: u64 = now - last;
            self.state = Buckets {
                packet_tokens: refill(
                    self.state.packet_tokens,
                    self.limits.packets_per_sec,
                    elapsed,
                ),
                byte_tokens: refill(self.state.byte_tokens, self.limits.bytes_per_sec, elapsed),
                last_refill: now,
            };
        }
        let packets_ok = self.limits.packets_per_sec == 0 || self.state.packet_tokens >= 1;
        let bytes_ok = self.limits.bytes_per_sec == 0 || self.state.byte_tokens >= bytes;
        if !(packets_ok && bytes_ok) {
            return false;
        }
        if self.limits.packets_per_sec > 0 {
            self.state.packet_tokens = self.state.packet_tokens - 1;
        }
        if self.limits.bytes_per_sec > 0 {
            self.state.byte_tokens = self.state.byte_tokens - bytes;
        }
        true
    }
}

} // verus!
