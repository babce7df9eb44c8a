//! IP addresses, socket addresses and prefixes as plain values.

use vstd::arithmetic::power2::pow2;
use vstd::prelude::*;

use crate::bigendian::{
    be32, be_bytes, be_value, be_vec, lemma_be_bytes_len, lemma_be_bytes_of_value, lemma_be_value_4,
    lemma_be_value_of_bytes, lemma_pow256_values, push_u32, read_u128, read_u32,
};

verus! {

/// An IPv4 address, as the number its four octets spell.
#[derive(Debug, Clone, Copy, PartialEq, Eq, Structural, Hash)]
pub struct Ipv4Addr {
    pub bits: u32,
}

/// An IPv6 address, as the number its sixteen octets spell.
#[derive(Debug, Clone, Copy, PartialEq, Eq, Structural, Hash)]
pub struct Ipv6Addr {
    pub bits: u128,
}

/// An address of either family.
#[derive(Debug, Clone, Copy, PartialEq, Eq, Structural, Hash)]
pub enum IpAddr {
    V4(Ipv4Addr),
    V6(Ipv6Addr),
}

/// An address with a port. An IPv6 one also carries flow information and the
/// scope that a link-local address belongs to; an IPv4 one has zeros there.
#[derive(Debug, Clone, Copy, PartialEq, Eq, Structural, Hash)]
pub struct SocketAddr {
    pub ip: IpAddr,
    pub port: u16,
    pub flowinfo: u32,
    pub scope_id: u32,
}

/// An IPv4 address with a prefix length. The address may carry host bits.
#[derive(Debug, Clone, Copy, PartialEq, Eq, Structural, Hash)]
pub struct Ipv4Net {
    pub addr: Ipv4Addr,
    pub prefix_len: u8,
}

/// An IPv6 address with a prefix length. The address may carry host bits.
#[derive(Debug, Clone, Copy, PartialEq, Eq, Structural, Hash)]
pub struct Ipv6Net {
    pub addr: Ipv6Addr,
    pub prefix_len: u8,
}

/// A prefix of either family.
#[derive(Debug, Clone, Copy, PartialEq, Eq, Structural, Hash)]
pub enum IpNet {
    V4(Ipv4Net),
    V6(Ipv6Net),
}

/// A prefix length longer than the address family has bits.
#[derive(Debug, Clone, Copy, PartialEq, Eq, Structural)]
pub struct PrefixLenError;

impl Ipv4Addr {
    /// The address `a.b.c.d`.
    pub fn new(a: u8, b: u8, c: u8, d: u8) -> (addr: Self)
        ensures
            addr.bits == be32(seq![a, b, c, d], 0),
    {
        Ipv4Addr {
            bits: a as u32 * 0x100_0000 + b as u32 * 0x1_0000 + c as u32 * 0x100 + d as u32,
        }
    }

    /// The four octets, in network order.
    pub open spec fn spec_octets(self) -> Seq<u8> {
        be_bytes(self.bits as nat, 4)
    }

    /// The four octets, in network order.
    pub fn octets(&self) -> (out: Vec<u8>)
        ensures
            out@ == self.spec_octets(),
            out@.len() == 4,
    {
        let mut out: Vec<u8> = Vec::new();
        push_u32(&mut out, self.bits);
        proof {
            lemma_be_bytes_len(self.bits as nat, 4);
            assert(out@ =~= be_bytes(self.bits as nat, 4));
        }
        out
    }

    /// The address whose octets stand at `i`.
    pub fn read(s: &[u8], i: usize) -> (addr: Self)
        requires
            i + 4 <= s@.len(),
        ensures
            addr.spec_octets() == s@.subrange(i as int, i + 4),
            addr.bits == be32(s@, i as int),
    {
        let addr = Ipv4Addr { bits: read_u32(s, i) };
        proof {
            lemma_be_value_4(s@, i as int);
            lemma_be_bytes_of_value(s@.subrange(i as int, i + 4));
        }
        addr
    }
}

impl Ipv6Addr {
    /// The sixteen octets, in network order.
    pub open spec fn spec_octets(self) -> Seq<u8> {
        be_bytes(self.bits as nat, 16)
    }

    /// The sixteen octets, in network order.
    pub fn octets(&self) -> (out: Vec<u8>)
        ensures
            out@ == self.spec_octets(),
            out@.len() == 16,
    {
        proof {
            lemma_be_bytes_len(self.bits as nat, 16);
        }
        be_vec(self.bits, 16)
    }

    /// The address whose octets stand at `i`.
    pub fn read(s: &[u8], i: usize) -> (addr: Self)
        requires
            i + 16 <= s@.len(),
        ensures
            addr.spec_octets() == s@.subrange(i as int, i + 16),
            addr.bits == be_value(s@.subrange(i as int, i + 16)),
    {
        let addr = Ipv6Addr { bits: read_u128(s, i) };
        proof {
            lemma_be_bytes_of_value(s@.subrange(i as int, i + 16));
        }
        addr
    }
}

/// The octets of an address determine it.
pub proof fn lemma_octets_injective(a: IpAddr, b: IpAddr)
    requires
        a is V4 <==> b is V4,
        a.spec_octets() == b.spec_octets(),
    ensures
        a == b,
{
    lemma_pow256_values();
    match a {
        IpAddr::V4(x) => {
            let y = b->V4_0;
            lemma_be_value_of_bytes(x.bits as nat, 4);
            lemma_be_value_of_bytes(y.bits as nat, 4);
        },
        IpAddr::V6(x) => {
            let y = b->V6_0;
            lemma_be_value_of_bytes(x.bits as nat, 16);
            lemma_be_value_of_bytes(y.bits as nat, 16);
        },
    }
}

impl IpAddr {
    /// The IP version number: 4 or 6.
    pub open spec fn spec_version(self) -> u8 {
        match self {
            IpAddr::V4(_) => 4,
            IpAddr::V6(_) => 6,
        }
    }

    /// The octets, in network order.
    pub open spec fn spec_octets(self) -> Seq<u8> {
        match self {
            IpAddr::V4(a) => a.spec_octets(),
            IpAddr::V6(a) => a.spec_octets(),
        }
    }

    /// The address as a number, for comparison within its family.
    pub open spec fn spec_value(self) -> nat {
        match self {
            IpAddr::V4(a) => a.bits as nat,
            IpAddr::V6(a) => a.bits as nat,
        }
    }

    /// How many bits an address of this family has.
    pub open spec fn spec_width(self) -> nat {
        match self {
            IpAddr::V4(_) => 32,
            IpAddr::V6(_) => 128,
        }
    }

    /// Every IPv4 address comes before every IPv6 address; within a family
    /// addresses are ordered as numbers.
    pub open spec fn spec_le(self, other: IpAddr) -> bool {
        match (self, other) {
            (IpAddr::V4(a), IpAddr::V4(b)) => a.bits <= b.bits,
            (IpAddr::V6(a), IpAddr::V6(b)) => a.bits <= b.bits,
            (IpAddr::V4(_), IpAddr::V6(_)) => true,
            (IpAddr::V6(_), IpAddr::V4(_)) => false,
        }
    }

    /// The unspecified address (`0.0.0.0` or `::`).
    pub open spec fn spec_unspecified(self) -> bool {
        self.spec_value() == 0
    }

    /// A loopback address (`127.0.0.0/8` or `::1`).
    pub open spec fn spec_loopback(self) -> bool {
        match self {
            IpAddr::V4(a) => a.bits / 0x100_0000 == 127,
            IpAddr::V6(a) => a.bits == 1,
        }
    }

    pub fn version(&self) -> (v: u8)
        ensures
            v == self.spec_version(),
    {
        match self {
            IpAddr::V4(_) => 4,
            IpAddr::V6(_) => 6,
        }
    }

    pub fn is_ipv4(&self) -> (v: bool)
        ensures
            v == (self is V4),
    {
        match self {
            IpAddr::V4(_) => true,
            IpAddr::V6(_) => false,
        }
    }

    /// Whether this is `0.0.0.0` or `::`.
    pub fn is_unspecified(&self) -> (v: bool)
        ensures
            v == self.spec_unspecified(),
    {
        match self {
            IpAddr::V4(a) => a.bits == 0,
            IpAddr::V6(a) => a.bits == 0,
        }
    }

    /// Whether this is `127.0.0.0/8` or `::1`.
    pub fn is_loopback(&self) -> (v: bool)
        ensures
            v == self.spec_loopback(),
    {
        match self {
            IpAddr::V4(a) => a.bits / 0x100_0000 == 127,
            IpAddr::V6(a) => a.bits == 1,
        }
    }

    pub fn octets(&self) -> (out: Vec<u8>)
        ensures
            out@ == self.spec_octets(),
            out@.len() == if self is V4 { 4nat } else { 16nat },
    {
        match self {
            IpAddr::V4(a) => a.octets(),
            IpAddr::V6(a) => a.octets(),
        }
    }

    /// The address as a number, for comparison within its family.
    pub fn value(&self) -> (v: u128)
        ensures
            v == self.spec_value(),
    {
        match self {
            IpAddr::V4(a) => a.bits as u128,
            IpAddr::V6(a) => a.bits,
        }
    }

    /// Whether this address comes no later than `other`.
    pub fn le(&self, other: &IpAddr) -> (v: bool)
        ensures
            v == self.spec_le(*other),
    {
        match (self, other) {
            (IpAddr::V4(a), IpAddr::V4(b)) => a.bits <= b.bits,
            (IpAddr::V6(a), IpAddr::V6(b)) => a.bits <= b.bits,
            (IpAddr::V4(_), IpAddr::V6(_)) => true,
            (IpAddr::V6(_), IpAddr::V4(_)) => false,
        }
    }
}

impl SocketAddr {
    /// An address and port, without flow information or scope.
    pub open spec fn at(ip: IpAddr, port: u16) -> Self {
        SocketAddr { ip, port, flowinfo: 0, scope_id: 0 }
    }

    /// Only IPv6 has flow information and a scope.
    pub open spec fn wf(self) -> bool {
        self.ip is V4 ==> self == SocketAddr::at(self.ip, self.port)
    }

    /// An address and port, without flow information or scope.
    pub fn new(ip: IpAddr, port: u16) -> (addr: Self)
        ensures
            addr == SocketAddr::at(ip, port),
            addr.wf(),
    {
        SocketAddr { ip, port, flowinfo: 0, scope_id: 0 }
    }

    pub fn is_ipv4(&self) -> (v: bool)
        ensures
            v == (self.ip is V4),
    {
        self.ip.is_ipv4()
    }
}

/// How many addresses share a prefix of length `len` in a family of `width`
/// bits. Lengths past the width count as the width.
pub open spec fn net_size(width: nat, len: nat) -> nat {
    if len >= width {
        1
    } else {
        pow2((width - len) as nat)
    }
}

/// The first address of the prefix that holds `value`.
pub open spec fn net_first(value: nat, width: nat, len: nat) -> nat {
    (value - value % net_size(width, len)) as nat
}

/// The last address of the prefix that holds `value`.
pub open spec fn net_last(value: nat, width: nat, len: nat) -> nat {
    (net_first(value, width, len) + net_size(width, len) - 1) as nat
}

/// `2^k - 1`.
fn low_mask(k: u8) -> (m: u128)
    requires
        k <= 128,
    ensures
        m == pow2(k as nat) - 1,
{
    let mut m: u128 = 0;
    let mut i: u8 = 0;
    proof {
        vstd::arithmetic::power2::lemma2_to64();
    }
    while i < k
        invariant
            i <= k <= 128,
            m == pow2(i as nat) - 1,
        decreases k - i,
    {
        proof {
            vstd::arithmetic::power2::lemma_pow2_unfold((i + 1) as nat);
            lemma_pow2_le_128((i + 1) as nat);
        }
        m = m * 2 + 1;
        i = i + 1;
    }
    m
}

/// Powers of two up to the width of an IPv6 address.
pub proof fn lemma_pow2_le_128(k: nat)
    requires
        k <= 128,
    ensures
        0 < pow2(k) <= 0x1_0000_0000_0000_0000_0000_0000_0000_0000,
{
    vstd::arithmetic::power2::lemma2_to64_rest();
    vstd::arithmetic::power2::lemma_pow2_adds(64, 64);
    vstd::arithmetic::power2::lemma_pow2_pos(k);
    if k < 128 {
        vstd::arithmetic::power2::lemma_pow2_strictly_increases(k, 128);
    }
    assert(pow2(128) == 0x1_0000_0000_0000_0000_0000_0000_0000_0000);
}

/// A prefix has at least one address and, from its first, ends inside the
/// family.
pub proof fn lemma_net_bounds(value: nat, width: nat, len: nat)
    requires
        width <= 128,
        value < pow2(width),
    ensures
        net_size(width, len) >= 1,
        net_first(value, width, len) <= value <= net_last(value, width, len) < pow2(width),
        net_first(value, width, len) % net_size(width, len) == 0,
{
    let size = net_size(width, len);
    vstd::arithmetic::power2::lemma_pow2_pos(width);
    if len < width {
        vstd::arithmetic::power2::lemma_pow2_pos((width - len) as nat);
        vstd::arithmetic::power2::lemma_pow2_adds(len, (width - len) as nat);
        let top = pow2(width);
        let q = value / size;
        vstd::arithmetic::div_mod::lemma_fundamental_div_mod(value as int, size as int);
        vstd::arithmetic::div_mod::lemma_mod_bound(value as int, size as int);
        assert(net_first(value, width, len) == size * q);
        assert(q < pow2(len)) by (nonlinear_arith)
            requires
                size * q <= value,
                value < pow2(len) * size,
                size > 0,
        ;
        assert(size * q + size <= pow2(len) * size) by (nonlinear_arith)
            requires
                q + 1 <= pow2(len),
                size > 0,
        ;
        vstd::arithmetic::div_mod::lemma_mod_multiples_basic(q as int, size as int);
        assert(size * q == q * size) by (nonlinear_arith);
    }
}

/// The first and last address of the prefix that holds `value`.
pub fn net_bounds(value: u128, width: u8, len: u8) -> (r: (u128, u128))
    requires
        width <= 128,
        value < pow2(width as nat),
    ensures
        r.0 == net_first(value as nat, width as nat, len as nat),
        r.1 == net_last(value as nat, width as nat, len as nat),
{
    proof {
        lemma_net_bounds(value as nat, width as nat, len as nat);
        lemma_pow2_le_128(width as nat);
    }
    if len >= width {
        return (value, value);
    }
    let mask: u128 = low_mask(width - len);
    proof {
        lemma_pow2_le_128((width - len) as nat);
    }
    let first: u128 = if mask == u128::MAX {
        proof {
            vstd::arithmetic::div_mod::lemma_small_mod(value as nat, (mask + 1) as nat);
        }
        0
    } else {
        proof {
            vstd::arithmetic::div_mod::lemma_mod_decreases(value as nat, (mask + 1) as nat);
        }
        value - value % (mask + 1)
    };
    (first, first + mask)
}

impl Ipv4Net {
    /// A prefix length fits the family.
    pub open spec fn wf(self) -> bool {
        self.prefix_len <= 32
    }

    pub open spec fn spec_network(self) -> nat {
        net_first(self.addr.bits as nat, 32, self.prefix_len as nat)
    }

    pub open spec fn spec_broadcast(self) -> nat {
        net_last(self.addr.bits as nat, 32, self.prefix_len as nat)
    }

    pub open spec fn spec_contains(self, a: Ipv4Addr) -> bool {
        self.spec_network() <= a.bits <= self.spec_broadcast()
    }

    /// The prefix of length `prefix_len` that holds `addr`.
    pub fn new(addr: Ipv4Addr, prefix_len: u8) -> (r: Result<Self, PrefixLenError>)
        ensures
            r is Ok <==> prefix_len <= 32,
            r matches Ok(net) ==> net.wf() && net.addr == addr && net.prefix_len == prefix_len,
    {
        if prefix_len <= 32 {
            Ok(Ipv4Net { addr, prefix_len })
        } else {
            Err(PrefixLenError)
        }
    }

    /// The first address of the prefix.
    pub fn network(&self) -> (a: Ipv4Addr)
        ensures
            a.bits == self.spec_network(),
            a.bits <= self.addr.bits,
    {
        proof {
            vstd::arithmetic::power2::lemma2_to64();
            lemma_net_bounds(self.addr.bits as nat, 32, self.prefix_len as nat);
        }
        let r = net_bounds(self.addr.bits as u128, 32, self.prefix_len);
        Ipv4Addr { bits: r.0 as u32 }
    }

    /// The last address of the prefix.
    pub fn broadcast(&self) -> (a: Ipv4Addr)
        ensures
            a.bits == self.spec_broadcast(),
            a.bits >= self.addr.bits,
    {
        proof {
            vstd::arithmetic::power2::lemma2_to64();
            lemma_net_bounds(self.addr.bits as nat, 32, self.prefix_len as nat);
        }
        let r = net_bounds(self.addr.bits as u128, 32, self.prefix_len);
        Ipv4Addr { bits: r.1 as u32 }
    }

    /// Whether `a` lies inside the prefix.
    pub fn contains(&self, a: &Ipv4Addr) -> (v: bool)
        ensures
            v == self.spec_contains(*a),
    {
        self.network().bits <= a.bits && a.bits <= self.broadcast().bits
    }
}

impl Ipv6Net {
    /// A prefix length fits the family.
    pub open spec fn wf(self) -> bool {
        self.prefix_len <= 128
    }

    pub open spec fn spec_network(self) -> nat {
        net_first(self.addr.bits as nat, 128, self.prefix_len as nat)
    }

    pub open spec fn spec_broadcast(self) -> nat {
        net_last(self.addr.bits as nat, 128, self.prefix_len as nat)
    }

    pub open spec fn spec_contains(self, a: Ipv6Addr) -> bool {
        self.spec_network() <= a.bits <= self.spec_broadcast()
    }

    /// The prefix of length `prefix_len` that holds `addr`.
    pub fn new(addr: Ipv6Addr, prefix_len: u8) -> (r: Result<Self, PrefixLenError>)
        ensures
            r is Ok <==> prefix_len <= 128,
            r matches Ok(net) ==> net.wf() && net.addr == addr && net.prefix_len == prefix_len,
    {
        if prefix_len <= 128 {
            Ok(Ipv6Net { addr, prefix_len })
        } else {
            Err(PrefixLenError)
        }
    }

    /// The first address of the prefix.
    pub fn network(&self) -> (a: Ipv6Addr)
        ensures
            a.bits == self.spec_network(),
            a.bits <= self.addr.bits,
    {
        proof {
            lemma_width_128(self.addr.bits);
            lemma_net_bounds(self.addr.bits as nat, 128, self.prefix_len as nat);
        }
        let r = net_bounds(self.addr.bits, 128, self.prefix_len);
        Ipv6Addr { bits: r.0 }
    }

    /// The last address of the prefix.
    pub fn broadcast(&self) -> (a: Ipv6Addr)
        ensures
            a.bits == self.spec_broadcast(),
            a.bits >= self.addr.bits,
    {
        proof {
            lemma_width_128(self.addr.bits);
            lemma_net_bounds(self.addr.bits as nat, 128, self.prefix_len as nat);
        }
        let r = net_bounds(self.addr.bits, 128, self.prefix_len);
        Ipv6Addr { bits: r.1 }
    }

    /// Whether `a` lies inside the prefix.
    pub fn contains(&self, a: &Ipv6Addr) -> (v: bool)
        ensures
            v == self.spec_contains(*a),
    {
        self.network().bits <= a.bits && a.bits <= self.broadcast().bits
    }
}

/// Every 128-bit number is below `2^128`.
pub proof fn lemma_width_128(bits: u128)
    ensures
        (bits as nat) < pow2(128),
{
    vstd::arithmetic::power2::lemma2_to64_rest();
    vstd::arithmetic::power2::lemma_pow2_adds(64, 64);
}

impl IpNet {
    /// The prefix length fits the family.
    pub open spec fn wf(self) -> bool {
        match self {
            IpNet::V4(n) => n.wf(),
            IpNet::V6(n) => n.wf(),
        }
    }

    pub open spec fn spec_addr(self) -> IpAddr {
        match self {
            IpNet::V4(n) => IpAddr::V4(n.addr),
            IpNet::V6(n) => IpAddr::V6(n.addr),
        }
    }

    pub open spec fn spec_prefix_len(self) -> u8 {
        match self {
            IpNet::V4(n) => n.prefix_len,
            IpNet::V6(n) => n.prefix_len,
        }
    }

    /// The first address of the prefix, as a number.
    pub open spec fn spec_network(self) -> nat {
        match self {
            IpNet::V4(n) => n.spec_network(),
            IpNet::V6(n) => n.spec_network(),
        }
    }

    /// The last address of the prefix, as a number.
    pub open spec fn spec_broadcast(self) -> nat {
        match self {
            IpNet::V4(n) => n.spec_broadcast(),
            IpNet::V6(n) => n.spec_broadcast(),
        }
    }

    /// Whether `a` is of the family and lies inside the prefix.
    pub open spec fn spec_contains(self, a: IpAddr) -> bool {
        match (self, a) {
            (IpNet::V4(n), IpAddr::V4(x)) => n.spec_contains(x),
            (IpNet::V6(n), IpAddr::V6(x)) => n.spec_contains(x),
            _ => false,
        }
    }

    /// A prefix starts no later than its address and ends no earlier.
    pub proof fn lemma_bounds(self)
        ensures
            self.spec_network() <= self.spec_addr().spec_value() <= self.spec_broadcast(),
            self.spec_broadcast() < pow2(self.spec_addr().spec_width()),
    {
        match self {
            IpNet::V4(n) => {
                vstd::arithmetic::power2::lemma2_to64();
                lemma_net_bounds(n.addr.bits as nat, 32, n.prefix_len as nat);
            },
            IpNet::V6(n) => {
                lemma_width_128(n.addr.bits);
                lemma_net_bounds(n.addr.bits as nat, 128, n.prefix_len as nat);
            },
        }
    }

    /// The prefix of length `prefix_len` that holds `addr`.
    pub fn new(addr: IpAddr, prefix_len: u8) -> (r: Result<Self, PrefixLenError>)
        ensures
            r is Ok <==> prefix_len <= addr.spec_width(),
            r matches Ok(net) ==> net.wf() && net.spec_addr() == addr && net.spec_prefix_len()
                == prefix_len,
    {
        match addr {
            IpAddr::V4(a) => match Ipv4Net::new(a, prefix_len) {
                Ok(n) => Ok(IpNet::V4(n)),
                Err(e) => Err(e),
            },
            IpAddr::V6(a) => match Ipv6Net::new(a, prefix_len) {
                Ok(n) => Ok(IpNet::V6(n)),
                Err(e) => Err(e),
            },
        }
    }

    pub fn addr(&self) -> (a: IpAddr)
        ensures
            a == self.spec_addr(),
    {
        match self {
            IpNet::V4(n) => IpAddr::V4(n.addr),
            IpNet::V6(n) => IpAddr::V6(n.addr),
        }
    }

    pub fn prefix_len(&self) -> (len: u8)
        ensures
            len == self.spec_prefix_len(),
    {
        match self {
            IpNet::V4(n) => n.prefix_len,
            IpNet::V6(n) => n.prefix_len,
        }
    }

    /// The first address of the prefix.
    pub fn network(&self) -> (a: IpAddr)
        ensures
            a is V4 <==> self is V4,
            a.spec_value() == self.spec_network(),
    {
        match self {
            IpNet::V4(n) => IpAddr::V4(n.network()),
            IpNet::V6(n) => IpAddr::V6(n.network()),
        }
    }

    /// The last address of the prefix.
    pub fn broadcast(&self) -> (a: IpAddr)
        ensures
            a is V4 <==> self is V4,
            a.spec_value() == self.spec_broadcast(),
    {
        match self {
            IpNet::V4(n) => IpAddr::V4(n.broadcast()),
            IpNet::V6(n) => IpAddr::V6(n.broadcast()),
        }
    }

    /// Whether `a` is of the family and lies inside the prefix.
    pub fn contains(&self, a: &IpAddr) -> (v: bool)
        ensures
            v == self.spec_contains(*a),
    {
        match (self, a) {
            (IpNet::V4(n), IpAddr::V4(x)) => n.contains(x),
            (IpNet::V6(n), IpAddr::V6(x)) => n.contains(x),
            _ => false,
        }
    }
}

/// A prefix holds exactly the addresses that agree with its own in all the
/// bits that it fixes.
pub proof fn lemma_same_prefix(value: nat, other: nat, width: nat, len: nat)
    requires
        len <= width,
    ensures
        net_first(value, width, len) <= other <= net_last(value, width, len) <==> value / pow2(
            (width - len) as nat,
        ) == other / pow2((width - len) as nat),
{
    let m = pow2((width - len) as nat) as int;
    vstd::arithmetic::power2::lemma_pow2_pos((width - len) as nat);
    vstd::arithmetic::power2::lemma2_to64();
    assert(net_size(width, len) == m);
    let x = value as int;
    let y = other as int;
    vstd::arithmetic::div_mod::lemma_fundamental_div_mod(x, m);
    vstd::arithmetic::div_mod::lemma_fundamental_div_mod(y, m);
    let q = x / m;
    let p = y / m;
    assert(x - x % m == m * q);
    assert((m * q <= y <= m * q + m - 1) == (q == p)) by (nonlinear_arith)
        requires
            y == m * p + y % m,
            0 <= y % m < m,
            m > 0,
    ;
}

/// A prefix of either family holds exactly the addresses of that family that
/// agree with its own in all the bits that it fixes.
pub proof fn lemma_contains(net: IpNet, a: IpAddr)
    requires
        net.wf(),
    ensures
        net.spec_contains(a) <==> {
            let free = (net.spec_addr().spec_width() - net.spec_prefix_len()) as nat;
            &&& (net is V4 <==> a is V4)
            &&& net.spec_addr().spec_value() / pow2(free) == a.spec_value() / pow2(free)
        },
{
    lemma_same_prefix(
        net.spec_addr().spec_value(),
        a.spec_value(),
        net.spec_addr().spec_width(),
        net.spec_prefix_len() as nat,
    );
}

/// The addresses that are unspecified or loopback, in numbers, and the order of
/// addresses of one family.
pub proof fn lemma_special_addresses(a: IpAddr, b: IpAddr)
    ensures
        a.spec_unspecified() <==> (a matches IpAddr::V4(x) && x.bits == 0) || (a matches IpAddr::V6(
            x,
        ) && x.bits == 0),
        a.spec_loopback() <==> (a matches IpAddr::V4(x) && 0x7f00_0000 <= x.bits < 0x8000_0000) || (
        a matches IpAddr::V6(x) && x.bits == 1),
        (a is V4 <==> b is V4) ==> (a.spec_le(b) <==> a.spec_value() <= b.spec_value()),
        a is V4 && b is V6 ==> a.spec_le(b) && !b.spec_le(a),
{
}

} // verus!
