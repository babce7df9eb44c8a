//! Splitting an address range into prefixes.

use vstd::arithmetic::power2::pow2;
use vstd::prelude::*;

use crate::net::{lemma_net_bounds, net_size, IpAddr, IpNet, Ipv4Addr, Ipv4Net, Ipv6Addr, Ipv6Net};

verus! {

/// How many bits an address of the family has.
pub open spec fn family_width(v4: bool) -> nat {
    if v4 {
        32
    } else {
        128
    }
}

/// A prefix of length `len` may start at `first` and ends no later than
/// `last`.
pub open spec fn prefix_fits(first: nat, last: nat, width: nat, len: nat) -> bool {
    first % net_size(width, len) == 0 && first + net_size(width, len) <= last + 1
}

/// The shortest prefix length, from `len` on, that fits.
pub open spec fn widest_from(first: nat, last: nat, width: nat, len: nat) -> nat
    decreases width - len,
{
    if len >= width {
        width
    } else if prefix_fits(first, last, width, len) {
        len
    } else {
        widest_from(first, last, width, len + 1)
    }
}

/// The prefix of the family that starts at `first`.
pub open spec fn prefix_at(v4: bool, first: nat, len: nat) -> IpNet {
    if v4 {
        IpNet::V4(Ipv4Net { addr: Ipv4Addr { bits: first as u32 }, prefix_len: len as u8 })
    } else {
        IpNet::V6(Ipv6Net { addr: Ipv6Addr { bits: first as u128 }, prefix_len: len as u8 })
    }
}

/// The prefixes between two addresses, both included: each is the largest one
/// that starts where the one before it ended and does not pass the end.
pub open spec fn subnets(v4: bool, first: nat, last: nat) -> Seq<IpNet>
    decreases
        (if first <= last {
            last - first + 1
        } else {
            0
        }),
{
    if first > last {
        Seq::empty()
    } else {
        let width = family_width(v4);
        let len = widest_from(first, last, width, 0);
        proof {
            lemma_size_pos(width, len);
        }
        seq![prefix_at(v4, first, len)] + subnets(v4, first + net_size(width, len), last)
    }
}

/// `ipnet::Ipv4Subnets::new(start, end, 0)`, collected: from `start` on, the
/// next prefix is always the largest that is aligned there and stays within
/// `end`. Each prefix is handed out as address and length.
#[verifier::external_body]
fn ipnet_v4_subnets(start: u32, end: u32) -> (nets: Vec<IpNet>)
    requires
        start <= end,
    ensures
        nets@ == subnets(true, start as nat, end as nat),
{
    ipnet::Ipv4Subnets::new(start.into(), end.into(), 0)
        .map(|n| {
            IpNet::V4(Ipv4Net { addr: Ipv4Addr { bits: n.addr().into() }, prefix_len: n.prefix_len() })
        })
        .collect()
}

/// `ipnet::Ipv6Subnets::new(start, end, 0)`, collected: as for IPv4.
#[verifier::external_body]
fn ipnet_v6_subnets(start: u128, end: u128) -> (nets: Vec<IpNet>)
    requires
        start <= end,
    ensures
        nets@ == subnets(false, start as nat, end as nat),
{
    ipnet::Ipv6Subnets::new(start.into(), end.into(), 0)
        .map(|n| {
            IpNet::V6(Ipv6Net { addr: Ipv6Addr { bits: n.addr().into() }, prefix_len: n.prefix_len() })
        })
        .collect()
}

/// Every prefix holds at least one address.
pub proof fn lemma_size_pos(width: nat, len: nat)
    ensures
        net_size(width, len) >= 1,
{
    if len < width {
        vstd::arithmetic::power2::lemma_pow2_pos((width - len) as nat);
    }
}

/// The length found fits, and lies within the family.
proof fn lemma_widest(first: nat, last: nat, width: nat, len: nat)
    requires
        first <= last,
        len <= width,
    ensures
        len <= widest_from(first, last, width, len) <= width,
        prefix_fits(first, last, width, widest_from(first, last, width, len)),
    decreases width - len,
{
    if len >= width {
        assert(first % 1 == 0);
    } else if !prefix_fits(first, last, width, len) {
        lemma_widest(first, last, width, len + 1);
    }
}

/// The prefixes between two addresses hold exactly the addresses between
/// them.
pub proof fn lemma_subnets_cover(v4: bool, first: nat, last: nat, a: IpAddr)
    requires
        last < pow2(family_width(v4)),
        a is V4 <==> v4,
    ensures
        (exists|i: int|
            0 <= i < subnets(v4, first, last).len() && (#[trigger] subnets(
                v4,
                first,
                last,
            )[i]).spec_contains(a)) <==> first <= a.spec_value() <= last,
        forall|i: int|
            0 <= i < subnets(v4, first, last).len() ==> (#[trigger] subnets(
                v4,
                first,
                last,
            )[i]).wf(),
    decreases
            (if first <= last {
                last - first + 1
            } else {
                0
            }),
{
    let nets = subnets(v4, first, last);
    let width = family_width(v4);
    if first <= last {
        let len = widest_from(first, last, width, 0);
        let size = net_size(width, len);
        lemma_size_pos(width, len);
        lemma_widest(first, last, width, 0);
        lemma_subnets_cover(v4, first + size, last, a);
        let rest = subnets(v4, first + size, last);
        let head = prefix_at(v4, first, len);
        assert(nets =~= seq![head] + rest);
        vstd::arithmetic::power2::lemma2_to64();
        crate::net::lemma_pow2_le_128(width);
        lemma_net_bounds(first, width, len);
        assert(head.spec_network() == first);
        assert(head.spec_contains(a) <==> first <= a.spec_value() <= first + size - 1);
        if first <= a.spec_value() <= last {
            if a.spec_value() < first + size {
                assert(nets[0].spec_contains(a));
            } else {
                let j = choose|j: int| 0 <= j < rest.len() && (#[trigger] rest[j]).spec_contains(a);
                assert(nets[j + 1] == rest[j]);
                assert(nets[j + 1].spec_contains(a));
            }
        }
        assert forall|i: int| 0 <= i < nets.len() && (#[trigger] nets[i]).spec_contains(
            a,
        ) implies first <= a.spec_value() <= last by {
            if i > 0 {
                assert(nets[i] == rest[i - 1]);
                assert(rest[i - 1].spec_contains(a));
            }
        }
        assert forall|i: int| 0 <= i < nets.len() implies (#[trigger] nets[i]).wf() by {
            if i > 0 {
                assert(nets[i] == rest[i - 1]);
            }
        }
    }
}

/// The prefixes between two addresses are of their family.
pub proof fn lemma_subnets_family(v4: bool, first: nat, last: nat)
    ensures
        forall|i: int|
            0 <= i < subnets(v4, first, last).len() ==> ((#[trigger] subnets(v4, first, last)[i])
                is V4 <==> v4),
    decreases
            (if first <= last {
                last - first + 1
            } else {
                0
            }),
{
    if first <= last {
        let width = family_width(v4);
        let len = widest_from(first, last, width, 0);
        lemma_size_pos(width, len);
        lemma_subnets_family(v4, first + net_size(width, len), last);
    }
}

/// The prefixes that make up the range from `start` to `end`, both included;
/// none when the two are of different families or out of order.
pub open spec fn range_prefixes(start: IpAddr, end: IpAddr) -> Option<Seq<IpNet>> {
    match (start, end) {
        (IpAddr::V4(a), IpAddr::V4(b)) => if a.bits <= b.bits {
            Some(subnets(true, a.bits as nat, b.bits as nat))
        } else {
            None
        },
        (IpAddr::V6(a), IpAddr::V6(b)) => if a.bits <= b.bits {
            Some(subnets(false, a.bits as nat, b.bits as nat))
        } else {
            None
        },
        _ => None,
    }
}

/// Split the range from `start` to `end` into prefixes.
pub fn split_range(start: &IpAddr, end: &IpAddr) -> (r: Option<Vec<IpNet>>)
    ensures
        match range_prefixes(*start, *end) {
            Some(nets) => r matches Some(v) && v@ == nets,
            None => r is None,
        },
{
    match (start, end) {
        (IpAddr::V4(a), IpAddr::V4(b)) => {
            if a.bits <= b.bits {
                Some(ipnet_v4_subnets(a.bits, b.bits))
            } else {
                None
            }
        },
        (IpAddr::V6(a), IpAddr::V6(b)) => {
            if a.bits <= b.bits {
                Some(ipnet_v6_subnets(a.bits, b.bits))
            } else {
                None
            }
        },
        _ => None,
    }
}

/// Some prefix of the list holds the address.
pub open spec fn held(nets: Seq<IpNet>, a: IpAddr) -> bool {
    exists|i: int| 0 <= i < nets.len() && (#[trigger] nets[i]).spec_contains(a)
}

/// An address lies in a range, ends included.
pub open spec fn between(start: IpAddr, end: IpAddr, a: IpAddr) -> bool {
    match (start, end, a) {
        (IpAddr::V4(x), IpAddr::V4(y), IpAddr::V4(z)) => x.bits <= z.bits <= y.bits,
        (IpAddr::V6(x), IpAddr::V6(y), IpAddr::V6(z)) => x.bits <= z.bits <= y.bits,
        _ => false,
    }
}

/// A range is split exactly if its ends are of one family and in order, and
/// then into prefixes that hold exactly its addresses.
pub proof fn lemma_range_split(start: IpAddr, end: IpAddr, a: IpAddr)
    ensures
        range_prefixes(start, end) is Some <==> between(start, end, start),
        range_prefixes(start, end) matches Some(nets) ==> (held(nets, a) <==> between(
            start,
            end,
            a,
        )),
{
    if let Some(nets) = range_prefixes(start, end) {
        let v4 = start is V4;
        vstd::arithmetic::power2::lemma2_to64();
        vstd::arithmetic::power2::lemma_pow2_adds(64, 64);
        if a is V4 <==> v4 {
            lemma_subnets_cover(v4, start.spec_value(), end.spec_value(), a);
        } else {
            lemma_subnets_family(v4, start.spec_value(), end.spec_value());
            assert(!held(nets, a));
        }
    }
}

proof fn lemma_none_wider(first: nat, last: nat, width: nat, from: nat, len: nat)
    requires
        from <= len < widest_from(first, last, width, from),
    ensures
        !prefix_fits(first, last, width, len),
    decreases width - from,
{
    if from < width && !prefix_fits(first, last, width, from) && from < len {
        lemma_none_wider(first, last, width, from + 1, len);
    }
}

/// The prefixes between two addresses stand end to end, from the first address
/// to the last, and each is as wide as can be: a wider one would not start at a
/// multiple of its size, or would end behind the last address.
pub proof fn lemma_subnets_widest(v4: bool, first: nat, last: nat, i: int, len: nat)
    requires
        first <= last < pow2(family_width(v4)),
        0 <= i < subnets(v4, first, last).len(),
    ensures
        ({
            let nets = subnets(v4, first, last);
            let n = nets[i];
            let width: nat = if v4 {
                32
            } else {
                128
            };
            let size = if len >= width {
                1
            } else {
                pow2((width - len) as nat)
            };
            &&& i == 0 ==> n.spec_network() == first
            &&& i > 0 ==> n.spec_network() == nets[i - 1].spec_broadcast() + 1
            &&& i == nets.len() - 1 ==> n.spec_broadcast() == last
            &&& len < n.spec_prefix_len() ==> n.spec_network() % size != 0 || n.spec_network() + size
                > last + 1
        }),
    decreases last - first + 1,
{
    let nets = subnets(v4, first, last);
    let width = family_width(v4);
    let wide = widest_from(first, last, width, 0);
    let size = net_size(width, wide);
    lemma_size_pos(width, wide);
    lemma_widest(first, last, width, 0);
    let rest = subnets(v4, first + size, last);
    let head = prefix_at(v4, first, wide);
    assert(nets =~= seq![head] + rest);
    vstd::arithmetic::power2::lemma2_to64();
    crate::net::lemma_pow2_le_128(width);
    lemma_net_bounds(first, width, wide);
    assert(head.spec_network() == first);
    assert(head.spec_broadcast() == first + size - 1);
    assert(head.spec_prefix_len() == wide);
    if i == 0 {
        if len < wide {
            lemma_none_wider(first, last, width, 0, len);
        }
        if nets.len() == 1 {
            assert(rest.len() == 0);
            if first + size <= last {
                assert(subnets(v4, first + size, last).len() > 0);
            }
        }
    } else {
        assert(nets[i] == rest[i - 1]);
        assert(first + size <= last);
        lemma_subnets_widest(v4, first + size, last, i - 1, len);
        if i == 1 {
            assert(nets[0] == head);
        } else {
            assert(nets[i - 1] == rest[i - 2]);
        }
    }
}

} // verus!
