use iputil::cidr::Cidr;

#[test]
fn parse_error_messages_are_exact() {
    assert_eq!(
        Cidr::parse("10.0.0.0").unwrap_err(),
        "\"10.0.0.0\": missing \"/prefix\" (expected e.g. 10.0.0.0/24)"
    );
    assert_eq!(Cidr::parse("not.an.ip/24").unwrap_err(), "\"not.an.ip\": not a valid IP address");
    assert_eq!(Cidr::parse("10.0.0.0/abc").unwrap_err(), "\"abc\": not a valid prefix length");
    assert_eq!(Cidr::parse("10.0.0.0/33").unwrap_err(), "/33: prefix exceeds /32, the max for IPv4");
    assert_eq!(Cidr::parse("::1/129").unwrap_err(), "/129: prefix exceeds /128, the max for IPv6");
}

#[test]
fn parse_quotes_the_offending_part_as_debug_text() {
    assert_eq!(Cidr::parse("a\"b").unwrap_err(), "\"a\\\"b\": missing \"/prefix\" (expected e.g. 10.0.0.0/24)");
    assert_eq!(Cidr::parse("/24").unwrap_err(), "\"\": not a valid IP address");
}

#[test]
fn parse_splits_at_the_first_slash() {
    // The prefix part is everything after the first `/`.
    assert_eq!(Cidr::parse("10.0.0.0/24/5").unwrap_err(), "\"24/5\": not a valid prefix length");
}

#[test]
fn prefix_text_is_read_as_u8_from_str_reads_it() {
    assert_eq!(Cidr::parse("10.0.0.0/+24").unwrap().prefix(), 24);
    assert_eq!(Cidr::parse("10.0.0.0/024").unwrap().prefix(), 24);
    assert!(Cidr::parse("10.0.0.0/256").unwrap_err().contains("not a valid prefix length"));
    assert!(Cidr::parse("10.0.0.0/-1").unwrap_err().contains("not a valid prefix length"));
    assert!(Cidr::parse("10.0.0.0/+").unwrap_err().contains("not a valid prefix length"));
    assert!(Cidr::parse("10.0.0.0/").unwrap_err().contains("not a valid prefix length"));
}

#[test]
fn a_slash_30_reserves_network_and_broadcast() {
    let c = Cidr::parse("192.168.1.9/30").unwrap();
    assert_eq!(c.network().to_string(), "192.168.1.8");
    assert_eq!(c.highest().to_string(), "192.168.1.11");
    let (lo, hi) = c.usable_range();
    assert_eq!(lo.to_string(), "192.168.1.9");
    assert_eq!(hi.to_string(), "192.168.1.10");
    assert_eq!(c.usable_count(), "2");
    assert_eq!(c.total_addresses(), "4");
}

#[test]
fn masks_of_a_slash_20() {
    let c = Cidr::parse("172.31.77.1/20").unwrap();
    assert_eq!(c.netmask().to_string(), "255.255.240.0");
    assert_eq!(c.wildcard().to_string(), "0.0.15.255");
    assert_eq!(c.network().to_string(), "172.31.64.0");
    assert_eq!(c.highest().to_string(), "172.31.79.255");
}

#[test]
fn masks_of_ipv6_blocks() {
    let c = Cidr::parse("2001:db8::/64").unwrap();
    assert_eq!(c.netmask().to_string(), "ffff:ffff:ffff:ffff::");
    assert_eq!(c.wildcard().to_string(), "::ffff:ffff:ffff:ffff");
    let all = Cidr::parse("::/0").unwrap();
    assert_eq!(all.netmask().to_string(), "::");
    assert_eq!(all.wildcard().to_string(), "ffff:ffff:ffff:ffff:ffff:ffff:ffff:ffff");
    let one = Cidr::parse("::1/128").unwrap();
    assert_eq!(one.netmask().to_string(), "ffff:ffff:ffff:ffff:ffff:ffff:ffff:ffff");
    assert_eq!(one.wildcard().to_string(), "::");
    assert_eq!(one.total_addresses(), "1");
}

#[test]
fn ipv4_slash_0_usable_count_and_range() {
    let c = Cidr::parse("0.0.0.0/0").unwrap();
    assert_eq!(c.usable_count(), "4294967294");
    let (lo, hi) = c.usable_range();
    assert_eq!(lo.to_string(), "0.0.0.1");
    assert_eq!(hi.to_string(), "255.255.255.254");
    assert_eq!(c.netmask().to_string(), "0.0.0.0");
    assert_eq!(c.wildcard().to_string(), "255.255.255.255");
}

#[test]
fn ipv6_slash_1_counts_fit_in_u128() {
    let c = Cidr::parse("8000::/1").unwrap();
    assert_eq!(c.total_addresses(), "170141183460469231731687303715884105728");
    assert_eq!(c.usable_count(), "170141183460469231731687303715884105726");
}

#[test]
fn usable_count_matches_the_usable_range() {
    for s in ["10.0.0.0/24", "10.0.0.0/29", "10.0.0.0/30", "10.0.0.0/31", "10.0.0.0/32"] {
        let c = Cidr::parse(s).unwrap();
        let (lo, hi) = c.usable_range();
        let bits = |a: iputil::ipaddr::IpAddr| match a {
            iputil::ipaddr::IpAddr::V4(v) => v as u128,
            iputil::ipaddr::IpAddr::V6(v) => v,
        };
        let span = bits(hi) - bits(lo) + 1;
        assert_eq!(span.to_string(), c.usable_count(), "{s}");
    }
}
