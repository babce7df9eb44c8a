//! Kernel configuration on each platform.

use straw::capsule::IpAddressRange;
use straw::iface::{linux, macos, prefixes_from_ranges, split_default};
use straw::net::{IpAddr, IpNet, Ipv4Addr, Ipv6Addr};

fn ip(s: &str) -> IpAddr {
    match s.parse().unwrap() {
        core::net::IpAddr::V4(a) => IpAddr::V4(Ipv4Addr { bits: a.into() }),
        core::net::IpAddr::V6(a) => IpAddr::V6(Ipv6Addr { bits: a.into() }),
    }
}

fn net(s: &str) -> IpNet {
    let (a, len) = s.split_once('/').unwrap();
    IpNet::new(ip(a), len.parse().unwrap()).unwrap()
}

fn range(start: &str, end: &str, proto: u8) -> IpAddressRange {
    let start_ip = ip(start);
    IpAddressRange {
        ip_version: if start_ip.is_ipv4() { 4 } else { 6 },
        start_ip,
        end_ip: ip(end),
        ip_protocol: proto,
    }
}

#[test]
fn addr_and_route_args() {
    assert_eq!(
        linux::addr_args("add", "strawc0", ip("10.100.0.2"), 32).join(" "),
        "addr add 10.100.0.2/32 dev strawc0"
    );
    assert_eq!(
        linux::route_args("del", net("192.168.0.0/16"), "strawc0").join(" "),
        "route del 192.168.0.0/16 dev strawc0"
    );
}

#[test]
fn pin_route_with_and_without_gateway() {
    let proxy = ip("10.211.55.100");
    assert_eq!(
        linux::pin_args("add", proxy, Some(ip("10.211.55.1")), "enp0s5").join(" "),
        "route add 10.211.55.100/32 via 10.211.55.1 dev enp0s5"
    );
    // On-link proxy: no gateway to go via.
    assert_eq!(
        linux::pin_args("add", proxy, None, "enp0s5").join(" "),
        "route add 10.211.55.100/32 dev enp0s5"
    );
}

#[test]
fn iface_full_tunnel_becomes_two_halves() {
    let ranges = vec![range("0.0.0.0", "255.255.255.255", 0)];
    let prefixes = prefixes_from_ranges(&ranges);
    assert_eq!(
        prefixes,
        vec![
            net("0.0.0.0/1"),
            net("128.0.0.0/1")
        ]
    );
    // Crucially, the default route itself is never installed.
    assert!(!prefixes.iter().any(|p| p.prefix_len() == 0));
}

#[test]
fn v6_default_splits_too() {
    let ranges = vec![range("::", "ffff:ffff:ffff:ffff:ffff:ffff:ffff:ffff", 0)];
    assert_eq!(
        prefixes_from_ranges(&ranges),
        vec![
            net("::/1"),
            net("8000::/1")
        ]
    );
}

#[test]
fn iface_split_tunnel_ranges_decompose_to_prefixes() {
    let ranges = vec![
        range("10.100.0.0", "10.100.0.255", 0),
        range("192.168.0.0", "192.168.255.255", 0),
    ];
    assert_eq!(
        prefixes_from_ranges(&ranges),
        vec![
            net("10.100.0.0/24"),
            net("192.168.0.0/16")
        ]
    );
}

#[test]
fn iface_protocol_scoped_ranges_are_skipped() {
    // ICMP-only route: the routing table has no protocol selector.
    let ranges = vec![range("10.0.0.0", "10.255.255.255", 1)];
    assert!(prefixes_from_ranges(&ranges).is_empty());
}

#[test]
fn iface_overlapping_ranges_deduplicate() {
    let ranges = vec![
        range("10.0.0.0", "10.255.255.255", 0),
        range("10.0.0.0", "10.255.255.255", 0),
    ];
    assert_eq!(prefixes_from_ranges(&ranges).len(), 1);
}

#[test]
fn iface_malformed_range_is_ignored() {
    // start > end, and a mixed-family range.
    let ranges = vec![
        range("10.0.0.5", "10.0.0.1", 0),
        IpAddressRange {
            ip_version: 4,
            start_ip: ip("10.0.0.0"),
            end_ip: ip("::1"),
            ip_protocol: 0,
        },
    ];
    assert!(prefixes_from_ranges(&ranges).is_empty());
}

#[test]
fn route_get_with_gateway() {
    let out = "8.8.8.8 via 10.211.55.1 dev enp0s5 src 10.211.55.100 uid 1000 \n    cache \n";
    assert_eq!(
        linux::parse_route_get(out),
        Some((Some(ip("10.211.55.1")), "enp0s5".to_string()))
    );
}

#[test]
fn route_get_on_link() {
    let out = "10.211.55.1 dev enp0s5 src 10.211.55.100 uid 1000 \n    cache \n";
    assert_eq!(linux::parse_route_get(out), Some((None, "enp0s5".to_string())));
}

#[test]
fn route_get_loopback_and_garbage() {
    assert_eq!(
        linux::parse_route_get("127.0.0.1 dev lo src 127.0.0.1 uid 1000 \n"),
        Some((None, "lo".to_string()))
    );
    // No `dev` token, and a truncated one, both yield no device.
    assert_eq!(linux::parse_route_get(""), None);
    assert_eq!(linux::parse_route_get("10.0.0.1 proto kernel scope link"), None);
    assert_eq!(linux::parse_route_get("10.0.0.1 dev"), None);
}

#[test]
fn addr_and_route_commands() {
    assert_eq!(
        linux::addr_cmd("add", "strawc0", ip("10.100.0.2"), 32).to_text(),
        "ip addr add 10.100.0.2/32 dev strawc0"
    );
    assert_eq!(
        linux::route_cmd("add", net("10.0.0.0/8"), "strawc0").to_text(),
        "ip route add 10.0.0.0/8 dev strawc0"
    );
    assert_eq!(
        linux::mtu_cmd("strawc0", 1400).to_text(),
        "ip link set dev strawc0 mtu 1400"
    );
}

#[test]
fn pin_command_carries_the_gateway_only_when_there_is_one() {
    assert_eq!(
        linux::pin_cmd(
            "add",
            ip("203.0.113.9"),
            Some(ip("192.168.1.1")),
            "en0"
        )
        .to_text(),
        "ip route add 203.0.113.9/32 via 192.168.1.1 dev en0"
    );
    // On-link: no via.
    assert_eq!(
        linux::pin_cmd("del", ip("192.168.1.1"), None, "en0").to_text(),
        "ip route del 192.168.1.1/32 dev en0"
    );
}

#[test]
fn linux_route_get_parsing() {
    let (gw, dev) =
        linux::parse_route_get("8.8.8.8 via 10.211.55.1 dev enp0s5 src 10.211.55.100 uid 1000")
            .unwrap();
    assert_eq!(gw, Some(ip("10.211.55.1")));
    assert_eq!(dev, "enp0s5");

    let (gw, dev) =
        linux::parse_route_get("10.211.55.1 dev enp0s5 src 10.211.55.100 uid 1000").unwrap();
    assert_eq!(gw, None, "an on-link destination has no gateway");
    assert_eq!(dev, "enp0s5");

    assert_eq!(
        linux::parse_route_get("127.0.0.1 dev lo src 127.0.0.1 uid 1000 \n"),
        Some((None, "lo".to_string()))
    );
    // No `dev` token, and a truncated one, both yield no device.
    assert_eq!(linux::parse_route_get(""), None);
    assert_eq!(linux::parse_route_get("10.0.0.1 proto kernel scope link"), None);
    assert_eq!(linux::parse_route_get("10.0.0.1 dev"), None);
}

#[test]
fn addresses_are_point_to_point_and_removed_with_alias() {
    assert_eq!(
        macos::addr_cmd("add", "utun9", ip("10.100.0.2"), 32).to_text(),
        "ifconfig utun9 inet 10.100.0.2 10.100.0.2 netmask 255.255.255.255"
    );
    assert_eq!(
        macos::addr_cmd("del", "utun9", ip("10.100.0.2"), 32).to_text(),
        "ifconfig utun9 inet 10.100.0.2 -alias"
    );
    assert_eq!(
        macos::addr_cmd("add", "utun9", ip("fd00::2"), 64).to_text(),
        "ifconfig utun9 inet6 fd00::2 prefixlen 64"
    );
}

#[test]
fn routes_use_delete_not_del() {
    assert_eq!(
        macos::route_cmd("add", net("10.0.0.0/8"), "utun9").to_text(),
        "route -n add -net 10.0.0.0/8 -interface utun9"
    );
    // `ip` says del, `route` says delete; getting this wrong would leave
    // the route installed and fail only at teardown.
    assert_eq!(
        macos::route_cmd("del", net("10.0.0.0/8"), "utun9").to_text(),
        "route -n delete -net 10.0.0.0/8 -interface utun9"
    );
    assert_eq!(
        macos::route_cmd("add", net("fd00::/8"), "utun9").to_text(),
        "route -n add -inet6 -net fd00::/8 -interface utun9"
    );
}

#[test]
fn pin_command_uses_a_gateway_or_the_interface() {
    assert_eq!(
        macos::pin_cmd(
            "add",
            ip("203.0.113.9"),
            Some(ip("192.168.1.1")),
            "en0"
        )
        .to_text(),
        "route -n add -host 203.0.113.9 192.168.1.1"
    );
    // On-link: there is no gateway to hand route(8), so name the link.
    assert_eq!(
        macos::pin_cmd("del", ip("192.168.1.1"), None, "en0").to_text(),
        "route -n delete -host 192.168.1.1 -interface en0"
    );
}

#[test]
fn mtu_command() {
    assert_eq!(
        macos::mtu_cmd("utun9", 1400).to_text(),
        "ifconfig utun9 mtu 1400"
    );
}

/// Parsed from real `route -n get` output on macOS 26.
#[test]
fn macos_route_get_parsing() {
    let via_gateway = "   route to: 8.8.8.8\n\
                       destination: 8.8.8.8\n\
                           gateway: 192.168.1.1\n\
                         interface: en0\n\
                             flags: <UP,GATEWAY,HOST,DONE>\n";
    let (gw, dev) = macos::parse_route_get(via_gateway).unwrap();
    assert_eq!(gw, Some(ip("192.168.1.1")));
    assert_eq!(dev, "en0");

    // On-link destinations simply omit the gateway line.
    let on_link = "   route to: 192.168.1.1\n\
                   destination: 192.168.1.1\n\
                     interface: en0\n\
                         flags: <UP,HOST,DONE,LLINFO>\n";
    let (gw, dev) = macos::parse_route_get(on_link).unwrap();
    assert_eq!(gw, None);
    assert_eq!(dev, "en0");

    assert!(macos::parse_route_get("").is_none());
    assert!(
        macos::parse_route_get("route: writing to routing socket: not in table").is_none(),
        "a failed lookup must not parse as a route"
    );
}

#[test]
fn macos_netmask_from_prefix() {
    assert_eq!(macos::netmask(32), "255.255.255.255");
    assert_eq!(macos::netmask(24), "255.255.255.0");
    assert_eq!(macos::netmask(0), "0.0.0.0");
}

#[test]
fn a_default_route_is_installed_as_two_halves() {
    assert_eq!(
        split_default(net("0.0.0.0/0")),
        vec![
            net("0.0.0.0/1"),
            net("128.0.0.0/1")
        ]
    );
    assert_eq!(
        split_default(net("::/0")),
        vec![
            net("::/1"),
            net("8000::/1")
        ]
    );
    // Anything more specific is installed as it stands.
    let specific = net("10.0.0.0/8");
    assert_eq!(split_default(specific), vec![specific]);
}

#[test]
fn mod_full_tunnel_becomes_two_halves() {
    let all = prefixes_from_ranges(&[range("0.0.0.0", "255.255.255.255", 0)]);
    assert_eq!(
        all,
        vec![
            net("0.0.0.0/1"),
            net("128.0.0.0/1")
        ]
    );
}

#[test]
fn mod_split_tunnel_ranges_decompose_to_prefixes() {
    let ranges = vec![
        range("10.100.0.0", "10.100.0.255", 0),
        range("192.168.0.0", "192.168.255.255", 0),
    ];
    assert_eq!(
        prefixes_from_ranges(&ranges),
        vec![
            net("10.100.0.0/24"),
            net("192.168.0.0/16")
        ]
    );
}

#[test]
fn mod_protocol_scoped_ranges_are_skipped() {
    // ICMP-only route: the routing table has no protocol selector.
    let ranges = vec![range("10.0.0.0", "10.255.255.255", 1)];
    assert!(prefixes_from_ranges(&ranges).is_empty());
}

#[test]
fn mod_overlapping_ranges_deduplicate() {
    let ranges = vec![
        range("10.0.0.0", "10.255.255.255", 0),
        range("10.0.0.0", "10.255.255.255", 0),
    ];
    assert_eq!(prefixes_from_ranges(&ranges).len(), 1);
}

#[test]
fn mod_malformed_range_is_ignored() {
    // start > end, and a mixed-family range.
    let ranges = vec![
        range("10.0.0.5", "10.0.0.1", 0),
        IpAddressRange {
            ip_version: 4,
            start_ip: ip("10.0.0.0"),
            end_ip: ip("::1"),
            ip_protocol: 0,
        },
    ];
    assert!(prefixes_from_ranges(&ranges).is_empty());
}
