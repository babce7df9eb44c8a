//! Kernel interface configuration: addresses, routes, MTU.
//!
//! Two callers: `strawc` applies the proxy's ADDRESS_ASSIGN and
//! ROUTE_ADVERTISEMENT to the kernel (and takes it down again), and the
//! server gives its TUN device an IPv6 address, which the `tun` crate cannot
//! do.
//!
//! Which program does the work is the platform's business: Linux does all
//! three jobs with `ip(8)`, macOS needs `ifconfig(8)` for addresses and MTU
//! and `route(8)` for routes. So a command here is a [`Cmd`] — program *and*
//! arguments — rather than an argument vector with the program implied.
//!
//! Every command is built by a pure function; running it is the caller's
//! part.

pub mod linux;
pub mod macos;
pub mod unsupported;

use vstd::prelude::*;

use crate::capsule::{AssignedAddress, IpAddressRange};
use crate::error::ProxyError;
use crate::net::{net_size, IpAddr, IpNet, Ipv4Addr, Ipv4Net, Ipv6Addr, Ipv6Net};
use crate::subnets::{
    between, held, lemma_range_split, range_prefixes, split_range,
};
use crate::text::{
    chars_of, decimal, ip_text, net_text, push_ip, push_spaced, push_string, push_text, spaced,
    text_of, texts, trim, trimmed,
};

verus! {

/// What is said where there is no way to configure an interface.
pub const UNSUPPORTED: &'static str =
    "interface configuration is supported on Linux and macOS only";

/// A configuration command: which program, and what to pass it.
#[derive(Debug, Clone, PartialEq, Eq)]
pub struct Cmd {
    pub program: &'static str,
    pub args: Vec<String>,
}

impl Cmd {
    /// The command has this program and these arguments.
    pub open spec fn is(self, program: Seq<char>, args: Seq<Seq<char>>) -> bool {
        self.program@ == program && texts(self.args@) == args
    }

    /// The program and its arguments with a space between.
    pub open spec fn text(self) -> Seq<char> {
        self.program@ + if self.args@.len() == 0 {
            seq![' ']
        } else {
            spaced(texts(self.args@))
        }
    }

    pub fn new(program: &'static str, args: Vec<String>) -> (c: Self)
        ensures
            c.program@ == program@,
            c.args == args,
            c.is(program@, texts(args@)),
    {
        Cmd { program, args }
    }

    /// The command as one would type it.
    pub fn to_text(&self) -> (s: String)
        ensures
            s@ == self.text(),
    {
        let mut s = String::from_str(self.program);
        if self.args.len() == 0 {
            s.push(' ');
        } else {
            push_spaced(&mut s, &self.args);
        }
        proof {
            assert(s@ =~= self.text());
        }
        s
    }
}

/// The error for a command that exited with a failure, carrying its stderr.
pub fn command_failed(cmd: &Cmd, stderr: &str) -> (e: ProxyError)
    ensures
        e matches ProxyError::Config(t) && t@ == "`"@ + cmd.text() + "` failed: "@ + trimmed(
            stderr@,
        ),
{
    let mut t = String::from_str("`");
    let c = cmd.to_text();
    t.append(c.as_str());
    t.append("` failed: ");
    let said = trim_text(stderr);
    t.append(said.as_str());
    ProxyError::Config(t)
}

/// A text without the white space around it.
fn trim_text(text: &str) -> (s: String)
    ensures
        s@ == trimmed(text@),
{
    let chars = chars_of(text);
    let inner = trim(chars.as_slice());
    text_of(inner.as_slice())
}

/// A prefix as two halves, if it is a default route.
pub open spec fn halves(prefix: IpNet) -> Seq<IpNet> {
    if prefix.spec_prefix_len() != 0 {
        seq![prefix]
    } else {
        match prefix {
            IpNet::V4(_) => seq![
                IpNet::V4(Ipv4Net { addr: Ipv4Addr { bits: 0 }, prefix_len: 1 }),
                IpNet::V4(Ipv4Net { addr: Ipv4Addr { bits: 0x8000_0000 }, prefix_len: 1 }),
            ],
            IpNet::V6(_) => seq![
                IpNet::V6(Ipv6Net { addr: Ipv6Addr { bits: 0 }, prefix_len: 1 }),
                IpNet::V6(
                    Ipv6Net {
                        addr: Ipv6Addr { bits: 0x8000_0000_0000_0000_0000_0000_0000_0000 },
                        prefix_len: 1,
                    },
                ),
            ],
        }
    }
}

/// A default route is installed as two halves rather than `0.0.0.0/0`, so
/// the pre-existing default route survives underneath it to carry the
/// tunnel's own QUIC packets. This is the standard VPN redirect-gateway
/// trick: each half is more specific than the default, and both are less
/// specific than the host route pinning the proxy.
pub fn split_default(prefix: IpNet) -> (v: Vec<IpNet>)
    ensures
        v@ == halves(prefix),
{
    let mut v: Vec<IpNet> = Vec::new();
    if prefix.prefix_len() != 0 {
        v.push(prefix);
        return v;
    }
    match prefix {
        IpNet::V4(_) => {
            v.push(IpNet::V4(Ipv4Net { addr: Ipv4Addr { bits: 0 }, prefix_len: 1 }));
            v.push(IpNet::V4(Ipv4Net { addr: Ipv4Addr { bits: 0x8000_0000 }, prefix_len: 1 }));
        },
        IpNet::V6(_) => {
            v.push(IpNet::V6(Ipv6Net { addr: Ipv6Addr { bits: 0 }, prefix_len: 1 }));
            v.push(
                IpNet::V6(
                    Ipv6Net {
                        addr: Ipv6Addr { bits: 0x8000_0000_0000_0000_0000_0000_0000_0000 },
                        prefix_len: 1,
                    },
                ),
            );
        },
    }
    v
}

/// The halves of each prefix, in order.
pub open spec fn all_halves(prefixes: Seq<IpNet>) -> Seq<IpNet>
    decreases prefixes.len(),
{
    if prefixes.len() == 0 {
        Seq::empty()
    } else {
        all_halves(prefixes.drop_last()) + halves(prefixes.last())
    }
}

/// The prefixes that one advertised range asks for. Protocol-scoped and
/// malformed ranges ask for none.
pub open spec fn range_wants(range: IpAddressRange) -> Seq<IpNet> {
    if range.ip_protocol != 0 {
        Seq::empty()
    } else {
        match range_prefixes(range.start_ip, range.end_ip) {
            Some(prefixes) => all_halves(prefixes),
            None => Seq::empty(),
        }
    }
}

/// The prefixes that all advertised ranges ask for, in order.
pub open spec fn wanted(ranges: Seq<IpAddressRange>) -> Seq<IpNet>
    decreases ranges.len(),
{
    if ranges.len() == 0 {
        Seq::empty()
    } else {
        wanted(ranges.drop_last()) + range_wants(ranges.last())
    }
}

/// IPv4 before IPv6, then by address, then by length.
pub open spec fn net_lt(a: IpNet, b: IpNet) -> bool {
    match (a, b) {
        (IpNet::V4(_), IpNet::V6(_)) => true,
        (IpNet::V6(_), IpNet::V4(_)) => false,
        (IpNet::V4(x), IpNet::V4(y)) => x.addr.bits < y.addr.bits || (x.addr.bits == y.addr.bits
            && x.prefix_len < y.prefix_len),
        (IpNet::V6(x), IpNet::V6(y)) => x.addr.bits < y.addr.bits || (x.addr.bits == y.addr.bits
            && x.prefix_len < y.prefix_len),
    }
}

fn net_before(a: &IpNet, b: &IpNet) -> (v: bool)
    ensures
        v == net_lt(*a, *b),
{
    match (a, b) {
        (IpNet::V4(_), IpNet::V6(_)) => true,
        (IpNet::V6(_), IpNet::V4(_)) => false,
        (IpNet::V4(x), IpNet::V4(y)) => x.addr.bits < y.addr.bits || (x.addr.bits == y.addr.bits
            && x.prefix_len < y.prefix_len),
        (IpNet::V6(x), IpNet::V6(y)) => x.addr.bits < y.addr.bits || (x.addr.bits == y.addr.bits
            && x.prefix_len < y.prefix_len),
    }
}

/// Strictly increasing.
pub open spec fn nets_sorted(v: Seq<IpNet>) -> bool {
    forall|i: int, j: int| 0 <= i < j < v.len() ==> net_lt(#[trigger] v[i], #[trigger] v[j])
}

/// A sorted list with a prefix put in its place, unless it is there.
pub open spec fn with_net(v: Seq<IpNet>, n: IpNet) -> Seq<IpNet>
    decreases v.len(),
{
    if v.len() == 0 {
        seq![n]
    } else if v.last() == n {
        v
    } else if net_lt(v.last(), n) {
        v.push(n)
    } else {
        with_net(v.drop_last(), n).push(v.last())
    }
}

/// Sorted, without duplicates.
pub open spec fn sorted_nets(s: Seq<IpNet>) -> Seq<IpNet>
    decreases s.len(),
{
    if s.len() == 0 {
        Seq::empty()
    } else {
        with_net(sorted_nets(s.drop_last()), s.last())
    }
}

proof fn lemma_with_net(v: Seq<IpNet>, n: IpNet)
    requires
        nets_sorted(v),
    ensures
        nets_sorted(with_net(v, n)),
        forall|x: IpNet| #[trigger] with_net(v, n).contains(x) <==> v.contains(x) || x == n,
    decreases v.len(),
{
    let w = with_net(v, n);
    if v.len() == 0 {
        assert(w[0] == n);
    } else if v.last() == n {
        assert(v[v.len() - 1] == n);
    } else if net_lt(v.last(), n) {
        assert(w[v.len() as int] == n);
        assert forall|x: IpNet| #[trigger] w.contains(x) <==> v.contains(x) || x == n by {
            if v.contains(x) {
                let i = choose|i: int| 0 <= i < v.len() && v[i] == x;
                assert(w[i] == x);
            }
            if w.contains(x) && x != n {
                let i = choose|i: int| 0 <= i < w.len() && w[i] == x;
                assert(v[i] == x);
            }
        }
    } else {
        let d = v.drop_last();
        let e = with_net(d, n);
        assert(nets_sorted(d));
        lemma_with_net(d, n);
        assert(net_lt(n, v.last()));
        assert forall|i: int, j: int| 0 <= i < j < w.len() implies net_lt(
            #[trigger] w[i],
            #[trigger] w[j],
        ) by {
            if j == w.len() - 1 {
                assert(e.contains(e[i]));
                if e[i] != n {
                    let k = choose|k: int| 0 <= k < d.len() && d[k] == e[i];
                    assert(net_lt(v[k], v[v.len() - 1]));
                }
            }
        }
        assert forall|x: IpNet| #[trigger] w.contains(x) <==> v.contains(x) || x == n by {
            assert(w.last() == v.last());
            if w.contains(x) {
                let i = choose|i: int| 0 <= i < w.len() && w[i] == x;
                if i < e.len() {
                    assert(e[i] == x && e.contains(x));
                    if x != n {
                        let k = choose|k: int| 0 <= k < d.len() && d[k] == x;
                        assert(v[k] == x);
                    }
                } else {
                    assert(v[v.len() - 1] == x);
                }
            }
            if v.contains(x) || x == n {
                if x == v.last() {
                    assert(w[w.len() - 1] == x);
                } else {
                    if v.contains(x) {
                        let k = choose|k: int| 0 <= k < v.len() && v[k] == x;
                        assert(d[k] == x);
                    }
                    assert(e.contains(x));
                    let i = choose|i: int| 0 <= i < e.len() && e[i] == x;
                    assert(w[i] == x);
                }
            }
        }
    }
}

/// Sorting keeps what there is, once each, in increasing order.
pub proof fn lemma_sorted_nets(s: Seq<IpNet>)
    ensures
        nets_sorted(sorted_nets(s)),
        forall|x: IpNet| #[trigger] sorted_nets(s).contains(x) <==> s.contains(x),
    decreases s.len(),
{
    if s.len() > 0 {
        let d = s.drop_last();
        lemma_sorted_nets(d);
        lemma_with_net(sorted_nets(d), s.last());
        assert forall|x: IpNet| #[trigger] sorted_nets(s).contains(x) <==> s.contains(x) by {
            if s.contains(x) && x != s.last() {
                let k = choose|k: int| 0 <= k < s.len() && s[k] == x;
                assert(d[k] == x);
            }
            if d.contains(x) {
                let k = choose|k: int| 0 <= k < d.len() && d[k] == x;
                assert(s[k] == x);
            }
            assert(s[s.len() - 1] == s.last());
        }
    }
}

/// Putting a prefix where the larger ones begin is putting it in its place.
proof fn lemma_with_net_at(v: Seq<IpNet>, n: IpNet, k: int)
    requires
        0 <= k <= v.len(),
        forall|i: int| k <= i < v.len() ==> net_lt(n, #[trigger] v[i]),
        k > 0 ==> v[k - 1] == n || net_lt(v[k - 1], n),
    ensures
        with_net(v, n) == if k > 0 && v[k - 1] == n {
            v
        } else {
            v.insert(k, n)
        },
    decreases v.len(),
{
    if v.len() == 0 {
        assert(v.insert(0, n) =~= seq![n]);
    } else if k == v.len() {
        assert(v.insert(k, n) =~= v.push(n));
    } else {
        assert(net_lt(n, v[v.len() - 1]));
        let d = v.drop_last();
        lemma_with_net_at(d, n, k);
        assert(with_net(v, n) == with_net(d, n).push(v.last()));
        if k > 0 && v[k - 1] == n {
            assert(with_net(d, n).push(v.last()) =~= v);
        } else {
            assert(with_net(d, n).push(v.last()) =~= v.insert(k, n));
        }
    }
}

fn add_net(v: &mut Vec<IpNet>, n: IpNet)
    ensures
        final(v)@ == with_net(old(v)@, n),
{
    let mut k: usize = v.len();
    while k > 0 && net_before(&n, &v[k - 1])
        invariant
            k <= v@.len(),
            v@ == old(v)@,
            forall|i: int| k <= i < v@.len() ==> net_lt(n, #[trigger] v@[i]),
        decreases k,
    {
        k = k - 1;
    }
    proof {
        lemma_with_net_at(v@, n, k as int);
    }
    if k > 0 && !net_before(&v[k - 1], &n) {
        return;
    }
    v.insert(k, n);
}

/// Decompose advertised ranges (RFC 9484 §4.7.3) into kernel-installable
/// prefixes.
///
/// Protocol-scoped ranges are skipped: a plain routing table cannot express
/// "only protocol N", and installing the prefix unscoped would send traffic
/// the proxy is going to reject anyway.
pub fn prefixes_from_ranges(ranges: &[IpAddressRange]) -> (out: Vec<IpNet>)
    ensures
        out@ == sorted_nets(wanted(ranges@)),
{
    let mut all: Vec<IpNet> = Vec::new();
    let mut i: usize = 0;
    proof {
        assert(ranges@.take(0) =~= Seq::<IpAddressRange>::empty());
    }
    while i < ranges.len()
        invariant
            i <= ranges@.len(),
            all@ == wanted(ranges@.take(i as int)),
        decreases ranges@.len() - i,
    {
        let range = ranges[i];
        proof {
            assert(ranges@.take(i + 1).drop_last() =~= ranges@.take(i as int));
            assert(ranges@.take(i + 1).last() == range);
        }
        if range.ip_protocol == 0 {
            match split_range(&range.start_ip, &range.end_ip) {
                Some(prefixes) => {
                    push_halves(&mut all, &prefixes);
                },
                None => {},
            }
        }
        proof {
            assert(all@ =~= wanted(ranges@.take(i + 1)));
        }
        i = i + 1;
    }
    proof {
        assert(ranges@.take(ranges@.len() as int) =~= ranges@);
    }
    let mut out: Vec<IpNet> = Vec::new();
    let mut k: usize = 0;
    proof {
        assert(all@.take(0) =~= Seq::<IpNet>::empty());
    }
    while k < all.len()
        invariant
            k <= all@.len(),
            out@ == sorted_nets(all@.take(k as int)),
        decreases all@.len() - k,
    {
        proof {
            assert(all@.take(k + 1).drop_last() =~= all@.take(k as int));
        }
        add_net(&mut out, all[k]);
        k = k + 1;
    }
    proof {
        assert(all@.take(all@.len() as int) =~= all@);
    }
    out
}

fn push_halves(out: &mut Vec<IpNet>, prefixes: &Vec<IpNet>)
    ensures
        final(out)@ == old(out)@ + all_halves(prefixes@),
{
    let mut i: usize = 0;
    proof {
        assert(prefixes@.take(0) =~= Seq::<IpNet>::empty());
        assert(out@ =~= old(out)@ + all_halves(prefixes@.take(0)));
    }
    while i < prefixes.len()
        invariant
            i <= prefixes@.len(),
            out@ == old(out)@ + all_halves(prefixes@.take(i as int)),
        decreases prefixes@.len() - i,
    {
        let mut h = split_default(prefixes[i]);
        out.append(&mut h);
        i = i + 1;
        proof {
            assert(prefixes@.take(i as int).drop_last() =~= prefixes@.take(i - 1));
            assert(out@ =~= old(out)@ + all_halves(prefixes@.take(i as int)));
        }
    }
    proof {
        assert(prefixes@.take(prefixes@.len() as int) =~= prefixes@);
    }
}

proof fn lemma_halves_nonzero(prefixes: Seq<IpNet>, n: IpNet)
    requires
        all_halves(prefixes).contains(n),
    ensures
        n.spec_prefix_len() != 0,
    decreases prefixes.len(),
{
    if prefixes.len() > 0 {
        let a = all_halves(prefixes.drop_last());
        let k = choose|k: int| 0 <= k < all_halves(prefixes).len() && all_halves(prefixes)[k] == n;
        if k < a.len() {
            assert(a[k] == n);
            lemma_halves_nonzero(prefixes.drop_last(), n);
        } else {
            assert(halves(prefixes.last())[k - a.len()] == n);
        }
    }
}

proof fn lemma_held_concat(x: Seq<IpNet>, y: Seq<IpNet>, a: IpAddr)
    ensures
        held(x + y, a) <==> held(x, a) || held(y, a),
{
    if held(x, a) {
        let i = choose|i: int| 0 <= i < x.len() && (#[trigger] x[i]).spec_contains(a);
        assert((x + y)[i] == x[i]);
    }
    if held(y, a) {
        let i = choose|i: int| 0 <= i < y.len() && (#[trigger] y[i]).spec_contains(a);
        assert((x + y)[x.len() + i] == y[i]);
    }
    if held(x + y, a) {
        let i = choose|i: int| 0 <= i < (x + y).len() && (#[trigger] (x + y)[i]).spec_contains(a);
        if i < x.len() {
            assert(x[i].spec_contains(a));
        } else {
            assert(y[i - x.len()].spec_contains(a));
        }
    }
}

proof fn lemma_all_halves_held(prefixes: Seq<IpNet>, a: IpAddr)
    ensures
        held(all_halves(prefixes), a) <==> held(prefixes, a),
    decreases prefixes.len(),
{
    if prefixes.len() > 0 {
        let d = prefixes.drop_last();
        lemma_all_halves_held(d, a);
        lemma_halves_cover(prefixes.last(), a);
        lemma_held_concat(all_halves(d), halves(prefixes.last()), a);
        lemma_held_concat(d, seq![prefixes.last()], a);
        assert(d + seq![prefixes.last()] =~= prefixes);
        assert(seq![prefixes.last()][0] == prefixes.last());
    }
}

proof fn lemma_range_held(range: IpAddressRange, a: IpAddr)
    ensures
        held(range_wants(range), a) <==> range.ip_protocol == 0 && between(
            range.start_ip,
            range.end_ip,
            a,
        ),
{
    if range.ip_protocol == 0 {
        match range_prefixes(range.start_ip, range.end_ip) {
            Some(prefixes) => {
                lemma_all_halves_held(prefixes, a);
                lemma_range_split(range.start_ip, range.end_ip, a);
            },
            None => {},
        }
    }
}

/// The kernel routes that the advertised ranges are installed as hold exactly
/// the addresses of those ranges that are not scoped to a protocol: none of
/// them bypasses the tunnel, and nothing else enters it.
pub proof fn lemma_prefixes_cover(ranges: Seq<IpAddressRange>, a: IpAddr)
    ensures
        held(sorted_nets(wanted(ranges)), a) <==> exists|j: int|
            0 <= j < ranges.len() && (#[trigger] ranges[j]).ip_protocol == 0 && between(
                ranges[j].start_ip,
                ranges[j].end_ip,
                a,
            ),
{
    let all = wanted(ranges);
    let nets = sorted_nets(all);
    lemma_sorted_nets(all);
    lemma_wanted_held(ranges, a);
    if held(nets, a) {
        let i = choose|i: int| 0 <= i < nets.len() && (#[trigger] nets[i]).spec_contains(a);
        assert(nets.contains(nets[i]));
        let k = choose|k: int| 0 <= k < all.len() && all[k] == nets[i];
        assert(all[k].spec_contains(a));
    }
    if held(all, a) {
        let k = choose|k: int| 0 <= k < all.len() && (#[trigger] all[k]).spec_contains(a);
        assert(all.contains(all[k]));
        assert(nets.contains(all[k]));
        let i = choose|i: int| 0 <= i < nets.len() && nets[i] == all[k];
        assert(nets[i].spec_contains(a));
    }
}

proof fn lemma_wanted_held(ranges: Seq<IpAddressRange>, a: IpAddr)
    ensures
        held(wanted(ranges), a) <==> exists|j: int|
            0 <= j < ranges.len() && (#[trigger] ranges[j]).ip_protocol == 0 && between(
                ranges[j].start_ip,
                ranges[j].end_ip,
                a,
            ),
    decreases ranges.len(),
{
    if ranges.len() > 0 {
        let d = ranges.drop_last();
        lemma_wanted_held(d, a);
        lemma_range_held(ranges.last(), a);
        lemma_held_concat(wanted(d), range_wants(ranges.last()), a);
        assert forall|j: int| 0 <= j < d.len() implies #[trigger] d[j] == ranges[j] by {}
        if exists|j: int|
            0 <= j < ranges.len() && (#[trigger] ranges[j]).ip_protocol == 0 && between(
                ranges[j].start_ip,
                ranges[j].end_ip,
                a,
            ) {
            let j = choose|j: int|
                0 <= j < ranges.len() && (#[trigger] ranges[j]).ip_protocol == 0 && between(
                    ranges[j].start_ip,
                    ranges[j].end_ip,
                    a,
                );
            if j < d.len() {
                assert(d[j].ip_protocol == 0);
            }
        }
        if held(wanted(d), a) {
            let j = choose|j: int|
                0 <= j < d.len() && (#[trigger] d[j]).ip_protocol == 0 && between(
                    d[j].start_ip,
                    d[j].end_ip,
                    a,
                );
            assert(ranges[j].ip_protocol == 0);
        }
        assert(ranges[ranges.len() - 1] == ranges.last());
    }
}

/// The default route itself is never installed.
pub proof fn lemma_no_default_route(ranges: Seq<IpAddressRange>, n: IpNet)
    requires
        sorted_nets(wanted(ranges)).contains(n),
    ensures
        n.spec_prefix_len() != 0,
{
    lemma_sorted_nets(wanted(ranges));
    lemma_wanted_nonzero(ranges, n);
}

proof fn lemma_wanted_nonzero(ranges: Seq<IpAddressRange>, n: IpNet)
    requires
        wanted(ranges).contains(n),
    ensures
        n.spec_prefix_len() != 0,
    decreases ranges.len(),
{
    if ranges.len() > 0 {
        let a = wanted(ranges.drop_last());
        let b = range_wants(ranges.last());
        let k = choose|k: int| 0 <= k < wanted(ranges).len() && wanted(ranges)[k] == n;
        if k < a.len() {
            assert(a[k] == n);
            lemma_wanted_nonzero(ranges.drop_last(), n);
        } else {
            assert(b[k - a.len()] == n);
            lemma_halves_nonzero(
                range_prefixes(ranges.last().start_ip, ranges.last().end_ip)->0,
                n,
            );
        }
    }
}

/// The halves of a prefix hold the same addresses as the prefix.
pub proof fn lemma_halves_cover(prefix: IpNet, a: IpAddr)
    ensures
        prefix.spec_contains(a) <==> exists|i: int|
            0 <= i < halves(prefix).len() && (#[trigger] halves(prefix)[i]).spec_contains(a),
{
    let h = halves(prefix);
    vstd::arithmetic::power2::lemma2_to64();
    if prefix.spec_prefix_len() != 0 {
        assert(h[0] == prefix);
    } else {
        lemma_half_sizes();
        match prefix {
            IpNet::V4(n) => {
                vstd::arithmetic::div_mod::lemma_small_mod(n.addr.bits as nat, 0x1_0000_0000);
                assert(h[0].spec_network() == 0 && h[0].spec_broadcast() == 0x7fff_ffff);
                assert(h[1].spec_network() == 0x8000_0000 && h[1].spec_broadcast() == 0xffff_ffff);
                assert(prefix.spec_network() == 0 && prefix.spec_broadcast() == 0xffff_ffff);
                if a is V4 {
                    assert(h[0].spec_contains(a) || h[1].spec_contains(a));
                    assert(prefix.spec_contains(a));
                }
            },
            IpNet::V6(n) => {
                let top = 0x1_0000_0000_0000_0000_0000_0000_0000_0000nat;
                vstd::arithmetic::div_mod::lemma_small_mod(n.addr.bits as nat, top);
                assert(h[0].spec_network() == 0 && h[0].spec_broadcast() == top / 2 - 1);
                assert(h[1].spec_network() == top / 2 && h[1].spec_broadcast() == top - 1);
                assert(prefix.spec_network() == 0 && prefix.spec_broadcast() == top - 1);
                if a is V6 {
                    assert(h[0].spec_contains(a) || h[1].spec_contains(a));
                    assert(prefix.spec_contains(a));
                }
            },
        }
    }
}

proof fn lemma_half_sizes()
    ensures
        net_size(32, 0) == 0x1_0000_0000,
        net_size(32, 1) == 0x8000_0000,
        net_size(128, 0) == 0x1_0000_0000_0000_0000_0000_0000_0000_0000,
        net_size(128, 1) == 0x8000_0000_0000_0000_0000_0000_0000_0000,
{
    vstd::arithmetic::power2::lemma2_to64();
    vstd::arithmetic::power2::lemma_pow2_adds(64, 64);
    vstd::arithmetic::power2::lemma_pow2_adds(64, 63);
    vstd::arithmetic::power2::lemma_pow2_unfold(64);
}

/// Which programs configure interfaces.
#[derive(Debug, Clone, Copy, PartialEq, Eq, Structural)]
pub enum Platform {
    Linux,
    MacOs,
    Other,
}

/// The address command of a platform.
pub open spec fn is_addr_cmd(
    p: Platform,
    c: Cmd,
    action: Seq<char>,
    dev: Seq<char>,
    addr: IpAddr,
    prefix_len: u8,
) -> bool {
    match p {
        Platform::Linux => c.is(
            "ip"@,
            seq!["addr"@, action, linux::addr_len_text(addr, prefix_len), "dev"@, dev],
        ),
        Platform::MacOs => c.is("ifconfig"@, macos::addr_texts(action, dev, addr, prefix_len)),
        Platform::Other => unsupported::is_unsupported(c),
    }
}

/// The route command of a platform.
pub open spec fn is_route_cmd(
    p: Platform,
    c: Cmd,
    action: Seq<char>,
    prefix: IpNet,
    dev: Seq<char>,
) -> bool {
    match p {
        Platform::Linux => c.is(
            "ip"@,
            seq!["route"@, action, net_text(prefix), "dev"@, dev],
        ),
        Platform::MacOs => c.is("route"@, macos::route_texts(action, prefix, dev)),
        Platform::Other => unsupported::is_unsupported(c),
    }
}

/// The host-route command of a platform.
pub open spec fn is_pin_cmd(
    p: Platform,
    c: Cmd,
    action: Seq<char>,
    proxy: IpAddr,
    gateway: Option<IpAddr>,
    dev: Seq<char>,
) -> bool {
    match p {
        Platform::Linux => c.is("ip"@, linux::pin_texts(action, proxy, gateway, dev)),
        Platform::MacOs => c.is("route"@, macos::pin_texts(action, proxy, gateway, dev)),
        Platform::Other => unsupported::is_unsupported(c),
    }
}

impl Platform {
    /// Add or remove an address.
    pub fn addr_cmd(self, action: &str, dev: &str, addr: IpAddr, prefix_len: u8) -> (c: Cmd)
        ensures
            is_addr_cmd(self, c, action@, dev@, addr, prefix_len),
    {
        match self {
            Platform::Linux => linux::addr_cmd(action, dev, addr, prefix_len),
            Platform::MacOs => macos::addr_cmd(action, dev, addr, prefix_len),
            Platform::Other => unsupported::addr_cmd(action, dev, addr, prefix_len),
        }
    }

    /// Add or remove a route.
    pub fn route_cmd(self, action: &str, prefix: IpNet, dev: &str) -> (c: Cmd)
        ensures
            is_route_cmd(self, c, action@, prefix, dev@),
    {
        match self {
            Platform::Linux => linux::route_cmd(action, prefix, dev),
            Platform::MacOs => macos::route_cmd(action, prefix, dev),
            Platform::Other => unsupported::route_cmd(action, prefix, dev),
        }
    }

    /// Add or remove a host route.
    pub fn pin_cmd(self, action: &str, proxy: IpAddr, gateway: Option<IpAddr>, dev: &str) -> (c:
        Cmd)
        ensures
            is_pin_cmd(self, c, action@, proxy, gateway, dev@),
    {
        match self {
            Platform::Linux => linux::pin_cmd(action, proxy, gateway, dev),
            Platform::MacOs => macos::pin_cmd(action, proxy, gateway, dev),
            Platform::Other => unsupported::pin_cmd(action, proxy, gateway, dev),
        }
    }

    /// Set a device's MTU.
    pub fn mtu_cmd(self, dev: &str, mtu: u16) -> (c: Cmd)
        ensures
            match self {
                Platform::Linux => c.is(
                    "ip"@,
                    seq!["link"@, "set"@, "dev"@, dev@, "mtu"@, decimal(mtu as nat)],
                ),
                Platform::MacOs => c.is("ifconfig"@, seq![dev@, "mtu"@, decimal(mtu as nat)]),
                Platform::Other => unsupported::is_unsupported(c),
            },
    {
        match self {
            Platform::Linux => linux::mtu_cmd(dev, mtu),
            Platform::MacOs => macos::mtu_cmd(dev, mtu),
            Platform::Other => unsupported::mtu_cmd(dev, mtu),
        }
    }

    /// The command that asks the kernel how it currently reaches `dst`.
    /// None where there is no such command.
    pub fn path_cmd(self, dst: IpAddr) -> (c: Option<Cmd>)
        ensures
            match self {
                Platform::Linux => c matches Some(cmd) && cmd.is(
                    "ip"@,
                    seq!["route"@, "get"@, ip_text(dst)],
                ),
                Platform::MacOs => c matches Some(cmd) && cmd.is(
                    "route"@,
                    seq!["-n"@, "get"@] + macos::family_flag(dst is V6) + seq![ip_text(dst)],
                ),
                Platform::Other => c is None,
            },
    {
        let mut a = String::new();
        push_ip(&mut a, dst);
        proof {
            assert(a@ =~= ip_text(dst));
        }
        let mut args: Vec<String> = Vec::new();
        match self {
            Platform::Linux => {
                push_text(&mut args, "route");
                push_text(&mut args, "get");
                push_string(&mut args, a);
                proof {
                    assert(texts(args@) =~= seq!["route"@, "get"@, ip_text(dst)]);
                }
                Some(Cmd::new("ip", args))
            },
            Platform::MacOs => {
                push_text(&mut args, "-n");
                push_text(&mut args, "get");
                if !dst.is_ipv4() {
                    push_text(&mut args, "-inet6");
                }
                push_string(&mut args, a);
                proof {
                    assert(texts(args@) =~= seq!["-n"@, "get"@] + macos::family_flag(dst is V6)
                        + seq![ip_text(dst)]);
                }
                Some(Cmd::new("route", args))
            },
            Platform::Other => None,
        }
    }

    /// The gateway and the device that the kernel's answer names.
    pub open spec fn route_in(self, output: Seq<char>) -> Option<(Option<IpAddr>, Seq<char>)> {
        match self {
            Platform::Linux => linux::route_in(output),
            Platform::MacOs => macos::route_in(output),
            Platform::Other => None,
        }
    }

    /// The failure to run the command that asks the kernel about a path.
    pub fn path_not_run(self, why: &str) -> (e: ProxyError)
        ensures
            e matches ProxyError::Config(t) && t@ == match self {
                Platform::Linux => "failed to run ip route get: "@ + why@,
                Platform::MacOs => "failed to run route get: "@ + why@,
                Platform::Other => UNSUPPORTED@,
            },
    {
        let text = match self {
            Platform::Linux => String::from_str("failed to run ip route get: ").concat(why),
            Platform::MacOs => String::from_str("failed to run route get: ").concat(why),
            Platform::Other => String::from_str(UNSUPPORTED),
        };
        ProxyError::Config(text)
    }

    /// The command that asks the kernel about the path to `dst` failed, with
    /// what it said.
    pub fn path_failed(self, dst: IpAddr, stderr: &str) -> (e: ProxyError)
        ensures
            e matches ProxyError::Config(t) && t@ == match self {
                Platform::Linux => "ip route get "@ + ip_text(dst) + " failed: "@ + trimmed(
                    stderr@,
                ),
                Platform::MacOs => "route -n get "@ + ip_text(dst) + " failed: "@ + trimmed(
                    stderr@,
                ),
                Platform::Other => UNSUPPORTED@,
            },
    {
        let mut text = match self {
            Platform::Linux => String::from_str("ip route get "),
            Platform::MacOs => String::from_str("route -n get "),
            Platform::Other => {
                return ProxyError::Config(String::from_str(UNSUPPORTED));
            },
        };
        push_ip(&mut text, dst);
        let said = trim_text(stderr);
        ProxyError::Config(text.concat(" failed: ").concat(said.as_str()))
    }

    /// Read the kernel's answer about `dst`. Used to pin the proxy to the
    /// pre-tunnel path.
    pub fn path_to(self, dst: IpAddr, output: &str) -> (r: Result<
        (Option<IpAddr>, String),
        ProxyError,
    >)
        ensures
            match self {
                Platform::Other => r matches Err(ProxyError::Config(t)) && t@ == UNSUPPORTED@,
                _ => match self.route_in(output@) {
                    Some((gw, dev)) => r matches Ok(p) && p.0 == gw && p.1@ == dev,
                    None => r matches Err(ProxyError::Config(t)) && t@
                        == "could not parse the current route to "@ + ip_text(dst),
                },
            },
    {
        let parsed = match self {
            Platform::Linux => linux::parse_route_get(output),
            Platform::MacOs => macos::parse_route_get(output),
            Platform::Other => {
                return Err(ProxyError::Config(String::from_str(UNSUPPORTED)));
            },
        };
        match parsed {
            Some(p) => Ok(p),
            None => {
                let mut t = String::from_str("could not parse the current route to ");
                push_ip(&mut t, dst);
                Err(ProxyError::Config(t))
            },
        }
    }
}

/// What to apply to the client's tunnel interface.
#[derive(Debug)]
pub struct InterfaceSetup<'a> {
    /// TUN device name; must already exist and be up.
    pub dev: &'a str,
    /// Addresses from ADDRESS_ASSIGN.
    pub assigned: &'a [AssignedAddress],
    /// Ranges from ROUTE_ADVERTISEMENT.
    pub routes: &'a [IpAddressRange],
    /// Proxy address to keep reachable outside the tunnel. Skipped when
    /// `None` (e.g. a loopback proxy, which no advertised route covers).
    pub pin: Option<IpAddr>,
    /// Install routes at all; false configures addresses only.
    pub install_routes: bool,
}

/// One command and the one that reverts it.
#[derive(Debug)]
pub struct Step {
    pub run: Cmd,
    pub undo: Cmd,
}

/// A change of the kernel's configuration.
pub enum Change {
    /// A host route along the given path.
    Pin { proxy: IpAddr, gateway: Option<IpAddr>, dev: Seq<char> },
    /// An address of the tunnel device.
    Addr { addr: IpAddr, prefix_len: u8 },
    /// A route to the tunnel device.
    Route { prefix: IpNet },
}

/// The step makes the change on `dev`, and its undo reverts it.
pub open spec fn makes(p: Platform, step: Step, change: Change, dev: Seq<char>) -> bool {
    match change {
        Change::Pin { proxy, gateway, dev: via } => is_pin_cmd(
            p,
            step.run,
            "add"@,
            proxy,
            gateway,
            via,
        ) && is_pin_cmd(p, step.undo, "del"@, proxy, gateway, via),
        Change::Addr { addr, prefix_len } => is_addr_cmd(
            p,
            step.run,
            "add"@,
            dev,
            addr,
            prefix_len,
        ) && is_addr_cmd(p, step.undo, "del"@, dev, addr, prefix_len),
        Change::Route { prefix } => is_route_cmd(p, step.run, "add"@, prefix, dev) && is_route_cmd(
            p,
            step.undo,
            "del"@,
            prefix,
            dev,
        ),
    }
}

impl<'a> InterfaceSetup<'a> {
    /// Whether the path to the proxy has to be known.
    pub open spec fn pins(self) -> bool {
        self.install_routes && self.pin is Some
    }

    /// The host route that comes first.
    pub open spec fn pin_changes(self, gateway: Option<IpAddr>, via: Seq<char>) -> Seq<Change> {
        if self.pins() {
            seq![Change::Pin { proxy: self.pin->0, gateway, dev: via }]
        } else {
            Seq::empty()
        }
    }

    /// All changes, in order: the host route, the addresses, the routes.
    pub open spec fn changes(self, gateway: Option<IpAddr>, via: Seq<char>) -> Seq<Change> {
        self.pin_changes(gateway, via) + addr_changes(self.assigned@) + if self.install_routes {
            route_changes(sorted_nets(wanted(self.routes@)))
        } else {
            Seq::empty()
        }
    }
}

/// The addresses as changes.
pub open spec fn addr_changes(assigned: Seq<AssignedAddress>) -> Seq<Change> {
    assigned.map_values(
        |a: AssignedAddress| Change::Addr { addr: a.ip_address, prefix_len: a.prefix_length },
    )
}

/// The routes as changes.
pub open spec fn route_changes(prefixes: Seq<IpNet>) -> Seq<Change> {
    prefixes.map_values(|n: IpNet| Change::Route { prefix: n })
}

/// The steps make the changes, one for one.
pub open spec fn makes_all(
    p: Platform,
    steps: Seq<Step>,
    changes: Seq<Change>,
    dev: Seq<char>,
) -> bool {
    &&& steps.len() == changes.len()
    &&& forall|i: int| 0 <= i < steps.len() ==> makes(p, #[trigger] steps[i], changes[i], dev)
}

/// The commands that apply addresses and routes, each with the one that
/// removes it again. `path` is the gateway and device by which the proxy is
/// reached now.
///
/// The pin route goes in before any tunnel route, so there is never a moment
/// where a default-route half captures the QUIC connection.
pub fn configure(
    platform: Platform,
    setup: &InterfaceSetup<'_>,
    path: Option<(Option<IpAddr>, String)>,
) -> (steps: Vec<Step>)
    requires
        setup.pins() ==> path is Some,
    ensures
        setup.pins() ==> makes_all(
            platform,
            steps@,
            setup.changes(path.unwrap().0, path.unwrap().1@),
            setup.dev@,
        ),
        !setup.pins() ==> makes_all(
            platform,
            steps@,
            setup.changes(None, Seq::empty()),
            setup.dev@,
        ),
{
    let mut steps: Vec<Step> = Vec::new();
    let ghost gw = if setup.pins() {
        path.unwrap().0
    } else {
        None
    };
    let ghost via = if setup.pins() {
        path.unwrap().1@
    } else {
        Seq::empty()
    };
    if setup.install_routes {
        match (setup.pin, path) {
            (Some(proxy), Some((gateway, dev))) => {
                steps.push(
                    Step {
                        run: platform.pin_cmd("add", proxy, gateway, dev.as_str()),
                        undo: platform.pin_cmd("del", proxy, gateway, dev.as_str()),
                    },
                );
            },
            _ => {},
        }
    }
    let ghost pins = setup.pin_changes(gw, via);
    let ghost addrs = addr_changes(setup.assigned@);
    proof {
        assert(pins + addrs.take(0) =~= pins);
    }
    let mut i: usize = 0;
    while i < setup.assigned.len()
        invariant
            i <= setup.assigned@.len(),
            addrs == addr_changes(setup.assigned@),
            makes_all(platform, steps@, pins + addrs.take(i as int), setup.dev@),
        decreases setup.assigned@.len() - i,
    {
        let a = setup.assigned[i];
        steps.push(
            Step {
                run: platform.addr_cmd("add", setup.dev, a.ip_address, a.prefix_length),
                undo: platform.addr_cmd("del", setup.dev, a.ip_address, a.prefix_length),
            },
        );
        i = i + 1;
        proof {
            assert(pins + addrs.take(i as int) =~= (pins + addrs.take(i - 1)).push(
                Change::Addr { addr: a.ip_address, prefix_len: a.prefix_length },
            ));
        }
    }
    proof {
        assert(addrs.take(i as int) =~= addrs);
    }
    if setup.install_routes {
        let prefixes = prefixes_from_ranges(setup.routes);
        let ghost so_far = pins + addrs;
        let ghost routes = route_changes(prefixes@);
        proof {
            assert(so_far + routes.take(0) =~= so_far);
        }
        let mut k: usize = 0;
        while k < prefixes.len()
            invariant
                k <= prefixes@.len(),
                routes == route_changes(prefixes@),
                makes_all(platform, steps@, so_far + routes.take(k as int), setup.dev@),
            decreases prefixes@.len() - k,
        {
            let n = prefixes[k];
            steps.push(
                Step {
                    run: platform.route_cmd("add", n, setup.dev),
                    undo: platform.route_cmd("del", n, setup.dev),
                },
            );
            k = k + 1;
            proof {
                assert(so_far + routes.take(k as int) =~= (so_far + routes.take(k - 1)).push(
                    Change::Route { prefix: n },
                ));
            }
        }
        proof {
            assert(routes.take(k as int) =~= routes);
        }
    } else {
        proof {
            assert(pins + addrs =~= setup.changes(gw, via));
        }
    }
    steps
}

/// Kernel state that is installed; to be reverted at the end.
///
/// Routes on the TUN device disappear with the device, so the undo list
/// matters mainly for the pin route, which lives on a physical interface.
#[derive(Debug)]
pub struct InterfaceGuard {
    undo: Vec<Cmd>,
}

impl InterfaceGuard {
    /// The commands that revert what is installed, in the order of
    /// installation.
    pub closed spec fn installed(self) -> Seq<Cmd> {
        self.undo@
    }

    /// Nothing is installed.
    pub fn new() -> (g: Self)
        ensures
            g.installed() == Seq::<Cmd>::empty(),
    {
        InterfaceGuard { undo: Vec::new() }
    }

    /// A step has run; remember how to revert it.
    pub fn done(&mut self, undo: Cmd)
        ensures
            final(self).installed() == old(self).installed().push(undo),
    {
        self.undo.push(undo);
    }

    /// The command to run next in order to revert everything. Reverse order:
    /// the pin route was installed first, so it goes last.
    pub fn next_undo(&mut self) -> (c: Option<Cmd>)
        ensures
            match c {
                Some(cmd) => old(self).installed() == final(self).installed().push(cmd),
                None => old(self).installed().len() == 0 && final(self).installed() == old(
                    self,
                ).installed(),
            },
    {
        let ghost before = self.undo@;
        let c = self.undo.pop();
        proof {
            if c is Some {
                assert(before =~= self.undo@.push(c->0));
            }
        }
        c
    }
}

/// The pin route, where there is one, comes before any other change.
pub proof fn lemma_pin_first(
    setup: InterfaceSetup<'_>,
    gateway: Option<IpAddr>,
    via: Seq<char>,
    i: int,
)
    requires
        0 <= i < setup.changes(gateway, via).len(),
        setup.changes(gateway, via)[i] is Pin,
    ensures
        i == 0,
{
    let pins = setup.pin_changes(gateway, via);
    let addrs = addr_changes(setup.assigned@);
    let routes = if setup.install_routes {
        route_changes(sorted_nets(wanted(setup.routes@)))
    } else {
        Seq::empty()
    };
    let all = setup.changes(gateway, via);
    if i >= pins.len() {
        if i < pins.len() + addrs.len() {
            assert(all[i] == addrs[i - pins.len()]);
        } else {
            assert(all[i] == routes[i - pins.len() - addrs.len()]);
        }
    }
}

/// What a setup changes, told from the setup: every assigned address is put on
/// the device with its length, and no other; an address is routed to the device
/// exactly if routes are wanted and an unscoped advertised range holds it; and
/// the proxy is pinned to the path it was reached by exactly if routes are
/// wanted and a proxy is named.
pub proof fn lemma_setup_changes(
    setup: InterfaceSetup<'_>,
    gateway: Option<IpAddr>,
    via: Seq<char>,
    addr: IpAddr,
    prefix_len: u8,
    x: IpAddr,
)
    ensures
        ({
            let c = setup.changes(gateway, via);
            &&& c.contains(Change::Addr { addr, prefix_len }) <==> exists|j: int|
                0 <= j < setup.assigned@.len() && (#[trigger] setup.assigned@[j]).ip_address == addr
                    && setup.assigned@[j].prefix_length == prefix_len
            &&& (exists|i: int|
                0 <= i < c.len() && (#[trigger] c[i] matches Change::Route { prefix }
                    && prefix.spec_contains(x))) <==> setup.install_routes && exists|k: int|
                0 <= k < setup.routes@.len() && (#[trigger] setup.routes@[k]).ip_protocol == 0
                    && between(setup.routes@[k].start_ip, setup.routes@[k].end_ip, x)
            &&& setup.install_routes && setup.pin is Some <==> c.len() > 0 && c[0] is Pin
            &&& c.len() > 0 && c[0] is Pin ==> c[0] == (Change::Pin {
                proxy: setup.pin->0,
                gateway,
                dev: via,
            })
        }),
{
    let pins = setup.pin_changes(gateway, via);
    let addrs = addr_changes(setup.assigned@);
    let nets = sorted_nets(wanted(setup.routes@));
    let routes = if setup.install_routes {
        route_changes(nets)
    } else {
        Seq::empty()
    };
    let all = setup.changes(gateway, via);
    let n = pins.len() as int;
    let m = n + addrs.len();
    assert(forall|i: int| 0 <= i < n ==> all[i] == pins[i]);
    assert(forall|i: int| n <= i < m ==> all[i] == addrs[i - n]);
    assert(forall|i: int| m <= i < all.len() ==> all[i] == routes[i - m]);
    lemma_prefixes_cover(setup.routes@, x);
    let change = Change::Addr { addr, prefix_len };
    if all.contains(change) {
        let i = choose|i: int| 0 <= i < all.len() && all[i] == change;
        assert(n <= i < m);
        assert(setup.assigned@[i - n].ip_address == addr);
    }
    if exists|j: int|
        0 <= j < setup.assigned@.len() && (#[trigger] setup.assigned@[j]).ip_address == addr
            && setup.assigned@[j].prefix_length == prefix_len {
        let j = choose|j: int|
            0 <= j < setup.assigned@.len() && (#[trigger] setup.assigned@[j]).ip_address == addr
                && setup.assigned@[j].prefix_length == prefix_len;
        assert(all[n + j] == change);
    }
    if exists|i: int|
        0 <= i < all.len() && (#[trigger] all[i] matches Change::Route { prefix }
            && prefix.spec_contains(x)) {
        let i = choose|i: int|
            0 <= i < all.len() && (#[trigger] all[i] matches Change::Route { prefix }
                && prefix.spec_contains(x));
        assert(m <= i);
        assert(nets[i - m].spec_contains(x));
        assert(held(nets, x));
    }
    if setup.install_routes && held(nets, x) {
        let k = choose|k: int| 0 <= k < nets.len() && (#[trigger] nets[k]).spec_contains(x);
        assert(all[m + k] == Change::Route { prefix: nets[k] });
    }
}

/// The command that reverts a step is the step's own command with another
/// verb: on Linux throughout, on macOS for routes; an address is there taken
/// off the device and family it was put on.
pub proof fn lemma_undo_mirrors(p: Platform, step: Step, change: Change, dev: Seq<char>, i: int)
    requires
        makes(p, step, change, dev),
    ensures
        ({
            let run = texts(step.run.args@);
            let undo = texts(step.undo.args@);
            &&& step.run.program@ == step.undo.program@
            &&& p is Linux ==> {
                &&& run.len() == undo.len()
                &&& run.len() > 1 && run[1] == "add"@ && undo[1] == "del"@
                &&& 0 <= i < run.len() && i != 1 ==> run[i] == undo[i]
            }
            &&& p is MacOs && !(change is Addr) ==> {
                &&& run.len() == undo.len()
                &&& run.len() > 1 && run[1] == "add"@ && undo[1] == "delete"@
                &&& 0 <= i < run.len() && i != 1 ==> run[i] == undo[i]
            }
            &&& p is MacOs && change is Addr ==> {
                &&& run.len() > 3 && undo.len() == 4 && undo[3] == "-alias"@
                &&& 0 <= i < 3 ==> run[i] == undo[i]
            }
        }),
{
    reveal_strlit("add");
    reveal_strlit("del");
    assert("add"@.len() == 3 && "add"@[0] == 'a');
    assert("del"@.len() == 3 && "del"@[0] == 'd');
    assert("add"@ != "del"@);
}

} // verus!
