//! macOS interface configuration: `ifconfig(8)` for addresses and MTU,
//! `route(8)` for routes.
//!
//! Two shapes differ from Linux beyond the program name. utun interfaces are
//! point-to-point, so an address is given with a destination rather than as
//! `addr/len` — straw has no peer address (the far side is a tunnel, not a
//! neighbour), so the address points at itself, matching what
//! [`crate::forwarding::tun`] configures at creation. And removal is
//! `-alias`, not a `del` verb.

use vstd::prelude::*;

use crate::forwarding::tun::{mask_bits, prefix_to_netmask};
use crate::net::{IpAddr, IpNet};
use crate::text::{
    char_lists, chars_of, decimal, dotted, find, find_char, ip_of_text, ip_text, is_text,
    net_text, parse_ip, pieces, push_decimal, push_ip, push_net, push_string, push_text,
    same_chars, split_at, sub_chars, text_of, texts, trim, trimmed,
};

use super::Cmd;

verus! {

/// Netmask for an IPv4 prefix length, as `ifconfig` wants it spelled.
pub fn netmask(prefix_len: u8) -> (s: String)
    ensures
        s@ == dotted(mask_bits(prefix_len)),
{
    let mut s = String::new();
    push_ip(&mut s, IpAddr::V4(prefix_to_netmask(prefix_len)));
    proof {
        assert(s@ =~= dotted(mask_bits(prefix_len)));
    }
    s
}

fn ip_string(a: IpAddr) -> (s: String)
    ensures
        s@ == ip_text(a),
{
    let mut s = String::new();
    push_ip(&mut s, a);
    proof {
        assert(s@ =~= ip_text(a));
    }
    s
}

fn number(n: u64) -> (s: String)
    ensures
        s@ == decimal(n as nat),
{
    let mut s = String::new();
    push_decimal(&mut s, n);
    proof {
        assert(s@ =~= decimal(n as nat));
    }
    s
}

/// The words of an address command.
pub open spec fn addr_texts(
    action: Seq<char>,
    dev: Seq<char>,
    addr: IpAddr,
    prefix_len: u8,
) -> Seq<Seq<char>> {
    let family = match addr {
        IpAddr::V4(_) => "inet"@,
        IpAddr::V6(_) => "inet6"@,
    };
    seq![dev, family, ip_text(addr)] + if action == "add"@ {
        match addr {
            // Point-to-point: local and destination, then the mask.
            IpAddr::V4(_) => seq![ip_text(addr), "netmask"@, dotted(mask_bits(prefix_len))],
            IpAddr::V6(_) => seq!["prefixlen"@, decimal(prefix_len as nat)],
        }
    } else {
        seq!["-alias"@]
    }
}

/// `ifconfig <dev> inet <ip> <ip> netmask <mask>` (add) or
/// `ifconfig <dev> inet <ip> -alias` (del); `inet6 … prefixlen <len>` for v6.
pub fn addr_cmd(action: &str, dev: &str, addr: IpAddr, prefix_len: u8) -> (c: Cmd)
    ensures
        c.is("ifconfig"@, addr_texts(action@, dev@, addr, prefix_len)),
{
    let mut args: Vec<String> = Vec::new();
    push_text(&mut args, dev);
    if addr.is_ipv4() {
        push_text(&mut args, "inet");
    } else {
        push_text(&mut args, "inet6");
    }
    push_string(&mut args, ip_string(addr));
    if is_text(action, "add") {
        if addr.is_ipv4() {
            push_string(&mut args, ip_string(addr));
            push_text(&mut args, "netmask");
            push_string(&mut args, netmask(prefix_len));
        } else {
            push_text(&mut args, "prefixlen");
            push_string(&mut args, number(prefix_len as u64));
        }
    } else {
        push_text(&mut args, "-alias");
    }
    proof {
        assert(texts(args@) =~= addr_texts(action@, dev@, addr, prefix_len));
    }
    Cmd::new("ifconfig", args)
}

/// The verb of `route(8)` for an action.
pub open spec fn verb_text(action: Seq<char>) -> Seq<char> {
    if action == "add"@ {
        "add"@
    } else {
        "delete"@
    }
}

/// `route(8)` spells deletion `delete`, where `ip(8)` says `del`.
pub fn verb(action: &str) -> (s: String)
    ensures
        s@ == verb_text(action@),
{
    if is_text(action, "add") {
        String::from_str("add")
    } else {
        String::from_str("delete")
    }
}

/// The flag that `route(8)` wants for IPv6.
pub open spec fn family_flag(v6: bool) -> Seq<Seq<char>> {
    if v6 {
        seq!["-inet6"@]
    } else {
        Seq::empty()
    }
}

/// The words of a route command.
pub open spec fn route_texts(action: Seq<char>, prefix: IpNet, dev: Seq<char>) -> Seq<Seq<char>> {
    seq!["-n"@, verb_text(action)] + family_flag(prefix is V6) + seq![
        "-net"@,
        net_text(prefix),
        "-interface"@,
        dev,
    ]
}

/// `route -n {add,delete} [-inet6] -net <prefix> -interface <dev>`.
pub fn route_cmd(action: &str, prefix: IpNet, dev: &str) -> (c: Cmd)
    ensures
        c.is("route"@, route_texts(action@, prefix, dev@)),
{
    let mut args: Vec<String> = Vec::new();
    push_text(&mut args, "-n");
    push_string(&mut args, verb(action));
    match prefix {
        IpNet::V6(_) => {
            push_text(&mut args, "-inet6");
        },
        IpNet::V4(_) => {},
    }
    push_text(&mut args, "-net");
    let mut p = String::new();
    push_net(&mut p, &prefix);
    proof {
        assert(p@ =~= net_text(prefix));
    }
    push_string(&mut args, p);
    push_text(&mut args, "-interface");
    push_text(&mut args, dev);
    proof {
        assert(texts(args@) =~= route_texts(action@, prefix, dev@));
    }
    Cmd::new("route", args)
}

/// The words of a host route.
pub open spec fn pin_texts(
    action: Seq<char>,
    proxy: IpAddr,
    gateway: Option<IpAddr>,
    dev: Seq<char>,
) -> Seq<Seq<char>> {
    seq!["-n"@, verb_text(action)] + family_flag(proxy is V6) + seq!["-host"@, ip_text(proxy)]
        + match gateway {
        Some(gw) => seq![ip_text(gw)],
        None => seq!["-interface"@, dev],
    }
}

/// `route -n {add,delete} [-inet6] -host <proxy> <gw>|-interface <dev>` — the
/// host route that keeps the tunnel's own QUIC packets off the tunnel.
pub fn pin_cmd(action: &str, proxy: IpAddr, gateway: Option<IpAddr>, dev: &str) -> (c: Cmd)
    ensures
        c.is("route"@, pin_texts(action@, proxy, gateway, dev@)),
{
    let mut args: Vec<String> = Vec::new();
    push_text(&mut args, "-n");
    push_string(&mut args, verb(action));
    if !proxy.is_ipv4() {
        push_text(&mut args, "-inet6");
    }
    push_text(&mut args, "-host");
    push_string(&mut args, ip_string(proxy));
    match gateway {
        // A gateway is given positionally; an on-link destination is reached
        // through the interface instead.
        Some(gw) => {
            push_string(&mut args, ip_string(gw));
        },
        None => {
            push_text(&mut args, "-interface");
            push_text(&mut args, dev);
        },
    }
    proof {
        assert(texts(args@) =~= pin_texts(action@, proxy, gateway, dev@));
    }
    Cmd::new("route", args)
}

/// `ifconfig <dev> mtu <mtu>`.
pub fn mtu_cmd(dev: &str, mtu: u16) -> (c: Cmd)
    ensures
        c.is("ifconfig"@, seq![dev@, "mtu"@, decimal(mtu as nat)]),
{
    let mut args: Vec<String> = Vec::new();
    push_text(&mut args, dev);
    push_text(&mut args, "mtu");
    push_string(&mut args, number(mtu as u64));
    proof {
        assert(texts(args@) =~= seq![dev@, "mtu"@, decimal(mtu as nat)]);
    }
    Cmd::new("ifconfig", args)
}

/// The value of a `name: value` line, if the name is `key`.
pub open spec fn line_value(line: Seq<char>, key: Seq<char>) -> Option<Seq<char>> {
    let k = find(line, ':') as int;
    if k < line.len() && trimmed(line.take(k)) == key {
        Some(trimmed(line.skip(k + 1)))
    } else {
        None
    }
}

/// The value of the first line that names `key`.
pub open spec fn field_value(lines: Seq<Seq<char>>, key: Seq<char>) -> Option<Seq<char>>
    decreases lines.len(),
{
    if lines.len() == 0 {
        None
    } else {
        match line_value(lines[0], key) {
            Some(v) => Some(v),
            None => field_value(lines.drop_first(), key),
        }
    }
}

fn field(lines: &Vec<Vec<char>>, key: &str) -> (r: Option<String>)
    ensures
        match field_value(char_lists(lines@), key@) {
            Some(v) => r matches Some(s) && s@ == v,
            None => r is None,
        },
{
    let want = chars_of(key);
    let ghost all = char_lists(lines@);
    let mut i: usize = 0;
    proof {
        assert(all.skip(0) =~= all);
    }
    while i < lines.len()
        invariant
            i <= lines@.len(),
            all == char_lists(lines@),
            want@ == key@,
            field_value(all, key@) == field_value(all.skip(i as int), key@),
        decreases lines@.len() - i,
    {
        let line = &lines[i];
        proof {
            assert(all.skip(i as int)[0] == line@);
            assert(all.skip(i as int).drop_first() =~= all.skip(i + 1));
        }
        let k = find_char(line.as_slice(), ':');
        if k < line.len() {
            let name = sub_chars(line.as_slice(), 0, k);
            let value = sub_chars(line.as_slice(), k + 1, line.len());
            proof {
                assert(name@ =~= line@.take(k as int));
                assert(value@ =~= line@.skip(k + 1));
            }
            let n = trim(name.as_slice());
            if same_chars(n.as_slice(), want.as_slice()) {
                let v = trim(value.as_slice());
                return Some(text_of(v.as_slice()));
            }
        }
        i = i + 1;
    }
    None
}

/// The gateway and the device that the answer of `route -n get` names.
pub open spec fn route_in(output: Seq<char>) -> Option<(Option<IpAddr>, Seq<char>)> {
    let lines = pieces(output, '\n');
    match field_value(lines, "interface"@) {
        None => None,
        Some(dev) => Some(
            (
                match field_value(lines, "gateway"@) {
                    Some(gw) => ip_of_text(gw),
                    None => None,
                },
                dev,
            ),
        ),
    }
}

/// Parse `route -n get <dst>` into (gateway, device).
///
/// ```text
///    route to: 8.8.8.8
/// destination: 8.8.8.8
///     gateway: 192.168.1.1
///   interface: en0
/// ```
///
/// An on-link destination has no `gateway:` line, hence the optional gateway.
pub fn parse_route_get(output: &str) -> (r: Option<(Option<IpAddr>, String)>)
    ensures
        match route_in(output@) {
            Some((gw, dev)) => r matches Some(p) && p.0 == gw && p.1@ == dev,
            None => r is None,
        },
{
    let chars = chars_of(output);
    let lines = split_at(chars.as_slice(), '\n');
    let dev = match field(&lines, "interface") {
        Some(dev) => dev,
        None => {
            return None;
        },
    };
    let gateway = match field(&lines, "gateway") {
        Some(gw) => parse_ip(gw.as_str()),
        None => None,
    };
    Some((gateway, dev))
}

/// A line `key: value` is read so, whatever white space is around either.
pub proof fn lemma_line_value(name: Seq<char>, value: Seq<char>, key: Seq<char>)
    requires
        forall|i: int| 0 <= i < name.len() ==> name[i] != ':',
    ensures
        line_value(name + seq![':'] + value, key) == if trimmed(name) == key {
            Some(trimmed(value))
        } else {
            None
        },
        line_value(name, key) is None,
{
    let line = name + seq![':'] + value;
    crate::text::lemma_find_unique(line, ':', name.len() as int);
    crate::text::lemma_find_unique(name, ':', name.len() as int);
    assert(line.take(name.len() as int) =~= name);
    assert(line.skip(name.len() + 1int) =~= value);
}

/// The value of a field is that of the first line that has it.
pub proof fn lemma_field_value(lines: Seq<Seq<char>>, key: Seq<char>, k: int)
    requires
        0 <= k <= lines.len(),
        forall|i: int| 0 <= i < k ==> line_value(#[trigger] lines[i], key) is None,
        k < lines.len() ==> line_value(lines[k], key) is Some,
    ensures
        field_value(lines, key) == if k < lines.len() {
            line_value(lines[k], key)
        } else {
            None
        },
    decreases lines.len(),
{
    if k > 0 {
        let d = lines.drop_first();
        assert(line_value(lines[0], key) is None);
        assert forall|i: int| 0 <= i < k - 1 implies line_value(#[trigger] d[i], key) is None by {
            assert(d[i] == lines[i + 1]);
        }
        lemma_field_value(d, key, k - 1);
    }
}

/// The route to a host is read from the lines of the answer: the device from
/// the field `interface`, without which there is no route, and the gateway
/// from the field `gateway`, if there is one.
pub proof fn lemma_route_fields(output: Seq<char>)
    ensures
        ({
            let dev = field_value(pieces(output, '\n'), "interface"@);
            let gw = field_value(pieces(output, '\n'), "gateway"@);
            &&& route_in(output) is Some <==> dev is Some
            &&& route_in(output) matches Some((gateway, d)) ==> Some(d) == dev && gateway == if gw
                is Some {
                ip_of_text(gw->0)
            } else {
                None
            }
        }),
{
}

/// The commands name what they are about: the device and the address where an
/// address is put on or taken off; the prefix and the device for a route; the
/// proxy, and then its gateway or else its device, for the pin.
pub proof fn lemma_commands(
    action: Seq<char>,
    dev: Seq<char>,
    addr: IpAddr,
    prefix_len: u8,
    prefix: IpNet,
    gateway: Option<IpAddr>,
)
    ensures
        addr_texts(action, dev, addr, prefix_len)[0] == dev,
        addr_texts(action, dev, addr, prefix_len)[2] == ip_text(addr),
        route_texts(action, prefix, dev).last() == dev,
        route_texts(action, prefix, dev)[route_texts(action, prefix, dev).len() - 3] == net_text(
            prefix,
        ),
        route_texts(action, prefix, dev).len() == if prefix is V6 {
            7int
        } else {
            6
        },
        pin_texts(action, addr, gateway, dev).last() == match gateway {
            Some(gw) => ip_text(gw),
            None => dev,
        },
        pin_texts(action, addr, gateway, dev).contains(ip_text(addr)),
{
    let p = pin_texts(action, addr, gateway, dev);
    let k: int = if addr is V6 {
        4
    } else {
        3
    };
    assert(p[k] == ip_text(addr));
}

} // verus!
