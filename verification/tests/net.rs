use sluice::net::{parse_addr, parse_rule, permitted, IpAddr, Rule};

fn ip(s: &str) -> IpAddr {
    parse_addr(s).unwrap()
}

fn rules(list: &[&str]) -> Vec<Rule> {
    list.iter().filter_map(|s| parse_rule(s)).collect()
}

#[test]
fn an_empty_list_allows_everything() {
    assert!(permitted(&[], ip("8.8.8.8")));
}

#[test]
fn a_single_address_admits_only_itself() {
    let r = rules(&["192.168.1.239"]);
    assert!(permitted(&r, ip("192.168.1.239")));
    assert!(!permitted(&r, ip("192.168.1.240")));
    assert!(!permitted(&r, ip("192.168.2.239")));
}

#[test]
fn a_cidr_admits_its_block_and_nothing_else() {
    let r = rules(&["192.168.1.0/24"]);
    assert!(permitted(&r, ip("192.168.1.1")));
    assert!(permitted(&r, ip("192.168.1.255")));
    assert!(!permitted(&r, ip("192.168.2.1")));
}

/// The tailnet is one block, so remote access survives an allowlist that was
/// written with only the LAN in mind, as long as it is listed.
#[test]
fn the_tailscale_range_can_be_admitted_as_a_block() {
    let r = rules(&["100.64.0.0/10"]);
    assert!(permitted(&r, ip("100.95.255.90")));
    assert!(permitted(&r, ip("100.126.90.27")));
    assert!(!permitted(&r, ip("192.168.1.239")));
}

/// Otherwise a host cannot probe its own health endpoint, and whoever is
/// sitting at the machine is locked out of it.
#[test]
fn loopback_is_always_allowed() {
    let r = rules(&["192.168.1.239"]);
    assert!(permitted(&r, ip("127.0.0.1")));
    assert!(permitted(&r, ip("::1")));
    assert!(permitted(&r, ip("::ffff:127.0.0.1")));
}

#[test]
fn a_v4_rule_does_not_admit_a_v6_caller() {
    let r = rules(&["192.168.1.239"]);
    assert!(!permitted(&r, ip("2a0d:3341:b3ed::1")));
    // ...but a dual-stack listener reporting the mapped form still works.
    assert!(permitted(&r, ip("::ffff:192.168.1.239")));
}

#[test]
fn nonsense_rules_are_dropped_rather_than_admitting_everyone() {
    assert!(parse_rule("not-an-ip").is_none());
    assert!(parse_rule("192.168.1.1/99").is_none());
    assert!(parse_rule("").is_none());
    // A list of only-bad rules parses to empty, which allows all, so the caller
    // must reject bad input rather than silently opening up.
    assert!(rules(&["nonsense"]).is_empty());
}

#[test]
fn a_zero_prefix_means_everything_without_overflowing() {
    assert!(permitted(&rules(&["0.0.0.0/0"]), ip("8.8.8.8")));
    assert!(permitted(&rules(&["::/0"]), ip("2a0d::1")));
}

#[test]
fn addresses_read_as_numbers() {
    assert_eq!(parse_addr("1.2.3.4"), Some(IpAddr::V4(0x01020304)));
    assert_eq!(parse_addr("::"), Some(IpAddr::V6(0)));
    assert_eq!(
        parse_addr("2001:db8::8:800:200c:417a"),
        Some(IpAddr::V6(0x20010db8000000000008_0800200c417a))
    );
    assert_eq!(
        parse_addr("::ffff:1.2.3.4"),
        Some(IpAddr::V6(0xffff01020304))
    );
    for bad in ["1.2.3", "1.2.3.256", "01.2.3.4", "1:2", "1::2::3", "12345::", "::1.2.3", " 1.2.3.4"] {
        assert_eq!(parse_addr(bad), None, "{bad}");
    }
}

#[test]
fn addresses_at_the_edges_of_the_grammar() {
    let v6 = |n: u128| Some(IpAddr::V6(n));
    let cases: [(&str, Option<IpAddr>); 18] = [
        ("0.0.0.0", Some(IpAddr::V4(0))),
        ("255.255.255.255", Some(IpAddr::V4(u32::MAX))),
        ("1.02.3.4", None),
        ("1.2.3.4.5", None),
        (":::", None),
        ("1::", v6(1u128 << 112)),
        ("1:2:3:4:5:6:7:8", v6(0x00010002000300040005000600070008)),
        ("1:2:3:4:5:6:7::", v6(0x00010002000300040005000600070000)),
        ("::2:3:4:5:6:7:8", v6(0x00000002000300040005000600070008)),
        ("1:2:3:4:5:6:7:8:9", None),
        ("1:2:3:4:5:6:1.2.3.4", v6(0x00010002000300040005000601020304)),
        ("1:2:3:4:5:6:7:1.2.3.4", None),
        ("::1.2.3.4", v6(0x01020304)),
        ("1.2.3.4::", None),
        ("fe80::1%eth0", None),
        ("0000001::", None),
        ("ABCD::ef01", v6((0xabcdu128 << 112) | 0xef01)),
        ("1::1.2.3.4:5", None),
    ];
    for (s, expected) in cases {
        assert_eq!(parse_addr(s), expected, "{s}");
    }
}

#[test]
fn rules_are_trimmed_and_bounded_by_their_family() {
    assert_eq!(
        parse_rule(" 10.0.0.0/8 "),
        Some(Rule {
            addr: IpAddr::V4(0x0a000000),
            bits: 8
        })
    );
    assert_eq!(parse_rule("10.0.0.1").unwrap().bits, 32);
    assert_eq!(parse_rule("::1").unwrap().bits, 128);
    assert!(parse_rule("::1/129").is_none());
    assert!(parse_rule("10.0.0.0/").is_none());
    assert!(parse_rule("10.0.0.0/+8").is_some(), "as the number parser reads it");
    let block = parse_rule("2001:db8::/32").unwrap();
    assert!(sluice::net::matches(&block, ip("2001:db8:ffff::1")));
    assert!(!sluice::net::matches(&block, ip("2001:db9::1")));
}

#[test]
fn a_bare_v6_address_admits_only_itself() {
    let r = rules(&["2a0d::1"]);
    assert!(permitted(&r, ip("2a0d::1")));
    assert!(!permitted(&r, ip("2a0d::2")));
}
