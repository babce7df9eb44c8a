//! Linux interface configuration, all of it through `ip(8)`.

use vstd::prelude::*;

use crate::net::{IpAddr, IpNet};
use crate::text::{
    char_lists, chars_of, decimal, find, find_char, ip_of_text, ip_text, net_text, parse_ip,
    push_decimal, push_ip, push_net, push_string, push_text, same_chars, split_words, sub_chars,
    text_of, texts, words,
};

use super::Cmd;

verus! {

/// The text of an address and a prefix length.
pub open spec fn addr_len_text(addr: IpAddr, prefix_len: u8) -> Seq<char> {
    ip_text(addr) + seq!['/'] + decimal(prefix_len as nat)
}

fn addr_len(addr: IpAddr, prefix_len: u8) -> (s: String)
    ensures
        s@ == addr_len_text(addr, prefix_len),
{
    let mut s = String::new();
    push_ip(&mut s, addr);
    s.push('/');
    push_decimal(&mut s, prefix_len as u64);
    proof {
        assert(s@ =~= addr_len_text(addr, prefix_len));
    }
    s
}

/// `addr {add,del} <ip>/<len> dev <dev>`.
pub fn addr_args(action: &str, dev: &str, addr: IpAddr, prefix_len: u8) -> (args: Vec<String>)
    ensures
        texts(args@) == seq!["addr"@, action@, addr_len_text(addr, prefix_len), "dev"@, dev@],
{
    let mut args: Vec<String> = Vec::new();
    push_text(&mut args, "addr");
    push_text(&mut args, action);
    push_string(&mut args, addr_len(addr, prefix_len));
    push_text(&mut args, "dev");
    push_text(&mut args, dev);
    proof {
        assert(texts(args@) =~= seq![
            "addr"@,
            action@,
            addr_len_text(addr, prefix_len),
            "dev"@,
            dev@,
        ]);
    }
    args
}

/// `route {add,del} <prefix> dev <dev>`.
pub fn route_args(action: &str, prefix: IpNet, dev: &str) -> (args: Vec<String>)
    ensures
        texts(args@) == seq!["route"@, action@, net_text(prefix), "dev"@, dev@],
{
    let mut args: Vec<String> = Vec::new();
    push_text(&mut args, "route");
    push_text(&mut args, action);
    let mut p = String::new();
    push_net(&mut p, &prefix);
    proof {
        assert(p@ =~= net_text(prefix));
    }
    push_string(&mut args, p);
    push_text(&mut args, "dev");
    push_text(&mut args, dev);
    proof {
        assert(texts(args@) =~= seq!["route"@, action@, net_text(prefix), "dev"@, dev@]);
    }
    args
}

/// The prefix length of a single host.
pub open spec fn host_len(a: IpAddr) -> u8 {
    match a {
        IpAddr::V4(_) => 32,
        IpAddr::V6(_) => 128,
    }
}

/// The words of a host route.
pub open spec fn pin_texts(
    action: Seq<char>,
    proxy: IpAddr,
    gateway: Option<IpAddr>,
    dev: Seq<char>,
) -> Seq<Seq<char>> {
    let head = seq!["route"@, action, addr_len_text(proxy, host_len(proxy))];
    let via = match gateway {
        Some(gw) => seq!["via"@, ip_text(gw)],
        None => Seq::empty(),
    };
    head + via + seq!["dev"@, dev]
}

/// `route {add,del} <proxy> [via <gw>] dev <dev>` — the host route that
/// keeps the tunnel's own QUIC packets off the tunnel.
pub fn pin_args(action: &str, proxy: IpAddr, gateway: Option<IpAddr>, dev: &str) -> (args: Vec<
    String,
>)
    ensures
        texts(args@) == pin_texts(action@, proxy, gateway, dev@),
{
    let len: u8 = if proxy.is_ipv4() {
        32
    } else {
        128
    };
    let mut args: Vec<String> = Vec::new();
    push_text(&mut args, "route");
    push_text(&mut args, action);
    push_string(&mut args, addr_len(proxy, len));
    match gateway {
        Some(gw) => {
            push_text(&mut args, "via");
            let mut g = String::new();
            push_ip(&mut g, gw);
            proof {
                assert(g@ =~= ip_text(gw));
            }
            push_string(&mut args, g);
        },
        None => {},
    }
    push_text(&mut args, "dev");
    push_text(&mut args, dev);
    proof {
        assert(texts(args@) =~= pin_texts(action@, proxy, gateway, dev@));
    }
    args
}

/// `link set dev <dev> mtu <mtu>`.
pub fn mtu_args(dev: &str, mtu: u16) -> (args: Vec<String>)
    ensures
        texts(args@) == seq!["link"@, "set"@, "dev"@, dev@, "mtu"@, decimal(mtu as nat)],
{
    let mut args: Vec<String> = Vec::new();
    push_text(&mut args, "link");
    push_text(&mut args, "set");
    push_text(&mut args, "dev");
    push_text(&mut args, dev);
    push_text(&mut args, "mtu");
    let mut m = String::new();
    push_decimal(&mut m, mtu as u64);
    proof {
        assert(m@ =~= decimal(mtu as nat));
    }
    push_string(&mut args, m);
    proof {
        assert(texts(args@) =~= seq![
            "link"@,
            "set"@,
            "dev"@,
            dev@,
            "mtu"@,
            decimal(mtu as nat),
        ]);
    }
    args
}

/// `ip addr {add,del} <ip>/<len> dev <dev>`.
pub fn addr_cmd(action: &str, dev: &str, addr: IpAddr, prefix_len: u8) -> (c: Cmd)
    ensures
        c.is(
            "ip"@,
            seq!["addr"@, action@, addr_len_text(addr, prefix_len), "dev"@, dev@],
        ),
{
    Cmd::new("ip", addr_args(action, dev, addr, prefix_len))
}

/// `ip route {add,del} <prefix> dev <dev>`.
pub fn route_cmd(action: &str, prefix: IpNet, dev: &str) -> (c: Cmd)
    ensures
        c.is("ip"@, seq!["route"@, action@, net_text(prefix), "dev"@, dev@]),
{
    Cmd::new("ip", route_args(action, prefix, dev))
}

/// `ip route {add,del} <proxy> [via <gw>] dev <dev>`.
pub fn pin_cmd(action: &str, proxy: IpAddr, gateway: Option<IpAddr>, dev: &str) -> (c: Cmd)
    ensures
        c.is("ip"@, pin_texts(action@, proxy, gateway, dev@)),
{
    Cmd::new("ip", pin_args(action, proxy, gateway, dev))
}

/// `ip link set dev <dev> mtu <mtu>`.
pub fn mtu_cmd(dev: &str, mtu: u16) -> (c: Cmd)
    ensures
        c.is("ip"@, seq!["link"@, "set"@, "dev"@, dev@, "mtu"@, decimal(mtu as nat)]),
{
    Cmd::new("ip", mtu_args(dev, mtu))
}

/// The word after the first occurrence of `key`, if there is one.
pub open spec fn word_after(tokens: Seq<Seq<char>>, key: Seq<char>) -> Option<Seq<char>>
    decreases tokens.len(),
{
    if tokens.len() == 0 {
        None
    } else if tokens[0] == key {
        if tokens.len() > 1 {
            Some(tokens[1])
        } else {
            None
        }
    } else {
        word_after(tokens.drop_first(), key)
    }
}

fn after(tokens: &Vec<Vec<char>>, key: &str) -> (r: Option<String>)
    ensures
        match word_after(char_lists(tokens@), key@) {
            Some(w) => r matches Some(s) && s@ == w,
            None => r is None,
        },
{
    let want = chars_of(key);
    let ghost all = char_lists(tokens@);
    let mut i: usize = 0;
    proof {
        assert(all.skip(0) =~= all);
    }
    while i < tokens.len()
        invariant
            i <= tokens@.len(),
            all == char_lists(tokens@),
            want@ == key@,
            word_after(all, key@) == word_after(all.skip(i as int), key@),
        decreases tokens@.len() - i,
    {
        proof {
            assert(all.skip(i as int)[0] == tokens@[i as int]@);
            assert(all.skip(i as int).drop_first() =~= all.skip(i + 1));
        }
        if same_chars(tokens[i].as_slice(), want.as_slice()) {
            if i + 1 < tokens.len() {
                proof {
                    assert(all.skip(i as int)[1] == tokens@[i + 1]@);
                }
                return Some(text_of(tokens[i + 1].as_slice()));
            }
            return None;
        }
        i = i + 1;
    }
    None
}

/// The first line of a text.
pub open spec fn first_line(s: Seq<char>) -> Seq<char> {
    s.take(find(s, '\n') as int)
}

/// The gateway and the device that the answer of `ip route get` names.
pub open spec fn route_in(output: Seq<char>) -> Option<(Option<IpAddr>, Seq<char>)> {
    let tokens = words(first_line(output));
    match word_after(tokens, "dev"@) {
        None => None,
        Some(dev) => Some(
            (
                match word_after(tokens, "via"@) {
                    Some(gw) => ip_of_text(gw),
                    None => None,
                },
                dev,
            ),
        ),
    }
}

/// Parse the first line of `ip route get <dst>` into (gateway, device).
///
/// ```text
/// 8.8.8.8 via 10.211.55.1 dev enp0s5 src 10.211.55.100 uid 1000
/// 10.211.55.1 dev enp0s5 src 10.211.55.100 uid 1000
/// ```
///
/// An on-link destination has no `via`, hence the optional gateway.
pub fn parse_route_get(output: &str) -> (r: Option<(Option<IpAddr>, String)>)
    ensures
        match route_in(output@) {
            Some((gw, dev)) => r matches Some(p) && p.0 == gw && p.1@ == dev,
            None => r is None,
        },
{
    let chars = chars_of(output);
    let k = find_char(chars.as_slice(), '\n');
    let line = sub_chars(chars.as_slice(), 0, k);
    proof {
        assert(line@ =~= first_line(output@));
    }
    let tokens = split_words(line.as_slice());
    let dev = match after(&tokens, "dev") {
        Some(dev) => dev,
        None => {
            return None;
        },
    };
    let gateway = match after(&tokens, "via") {
        Some(gw) => parse_ip(gw.as_str()),
        None => None,
    };
    Some((gateway, dev))
}

/// The word after a key is the one behind the first occurrence of the key;
/// there is none exactly if the key does not occur or comes last.
pub proof fn lemma_word_after(tokens: Seq<Seq<char>>, key: Seq<char>, k: int)
    requires
        0 <= k <= tokens.len(),
        forall|i: int| 0 <= i < k ==> tokens[i] != key,
        k < tokens.len() ==> tokens[k] == key,
    ensures
        word_after(tokens, key) == if k + 1 < tokens.len() {
            Some(tokens[k + 1])
        } else {
            None
        },
    decreases tokens.len(),
{
    if k > 0 {
        let d = tokens.drop_first();
        assert(tokens[0] != key);
        assert(forall|i: int| 0 <= i < d.len() ==> d[i] == tokens[i + 1]);
        lemma_word_after(d, key, k - 1);
    }
}

/// The route to a host is read from the first line alone: the device behind
/// its first `dev`, and the gateway behind its first `via`, if there is one.
pub proof fn lemma_route_line(line: Seq<char>, rest: Seq<char>, d: int, v: int)
    requires
        forall|i: int| 0 <= i < line.len() ==> line[i] != '\n',
        0 <= d <= words(line).len(),
        forall|i: int| 0 <= i < d ==> words(line)[i] != "dev"@,
        d < words(line).len() ==> words(line)[d] == "dev"@,
        0 <= v <= words(line).len(),
        forall|i: int| 0 <= i < v ==> words(line)[i] != "via"@,
        v < words(line).len() ==> words(line)[v] == "via"@,
    ensures
        ({
            let tokens = words(line);
            let r = route_in(line + seq!['\n'] + rest);
            &&& route_in(line) == r
            &&& r is Some <==> d + 1 < tokens.len()
            &&& r matches Some((gateway, dev)) ==> dev == tokens[d + 1] && gateway == if v + 1
                < tokens.len() {
                ip_of_text(tokens[v + 1])
            } else {
                None
            }
        }),
{
    let s = line + seq!['\n'] + rest;
    crate::text::lemma_find_unique(s, '\n', line.len() as int);
    crate::text::lemma_find_unique(line, '\n', line.len() as int);
    assert(s.take(line.len() as int) =~= line);
    assert(line.take(line.len() as int) =~= line);
    lemma_word_after(words(line), "dev"@, d);
    lemma_word_after(words(line), "via"@, v);
}

/// The pin names the proxy as a single host, the gateway where there is one,
/// and the device.
pub proof fn lemma_pin(
    action: Seq<char>,
    proxy: IpAddr,
    gateway: Option<IpAddr>,
    dev: Seq<char>,
)
    ensures
        ({
            let p = pin_texts(action, proxy, gateway, dev);
            &&& p[1] == action
            &&& p[2] == ip_text(proxy) + seq!['/'] + decimal(
                if proxy is V4 {
                    32
                } else {
                    128
                },
            )
            &&& p.last() == dev
            &&& gateway matches Some(gw) ==> p.len() == 7 && p[4] == ip_text(gw)
            &&& gateway is None ==> p.len() == 5
        }),
{
}

} // verus!
