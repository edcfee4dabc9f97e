use iputil::cidr::Cidr;

#[test]
fn parses_a_plain_v4_cidr() {
    let c = Cidr::parse("10.0.0.0/24").unwrap();
    assert!(c.is_v4());
    assert_eq!(c.prefix(), 24);
}

#[test]
fn rejects_missing_prefix() {
    let err = Cidr::parse("10.0.0.0").unwrap_err();
    assert!(err.contains("/prefix"), "{err}");
}

#[test]
fn rejects_invalid_ip() {
    let err = Cidr::parse("not.an.ip/24").unwrap_err();
    assert!(err.contains("not a valid IP address"), "{err}");
}

#[test]
fn rejects_invalid_prefix_text() {
    let err = Cidr::parse("10.0.0.0/abc").unwrap_err();
    assert!(err.contains("not a valid prefix length"), "{err}");
}

#[test]
fn rejects_prefix_beyond_v4_width() {
    let err = Cidr::parse("10.0.0.0/33").unwrap_err();
    assert!(err.contains("exceeds /32"), "{err}");
}

#[test]
fn rejects_prefix_beyond_v6_width() {
    let err = Cidr::parse("::1/129").unwrap_err();
    assert!(err.contains("exceeds /128"), "{err}");
}

// Hand-computed reference case: 10.0.0.0/24.
#[test]
fn slash_24_matches_hand_computed_values() {
    let c = Cidr::parse("10.0.0.0/24").unwrap();
    assert_eq!(c.network().to_string(), "10.0.0.0");
    assert_eq!(c.netmask().to_string(), "255.255.255.0");
    assert_eq!(c.wildcard().to_string(), "0.0.0.255");
    assert_eq!(c.highest().to_string(), "10.0.0.255");
    assert_eq!(c.total_addresses(), "256");
    assert_eq!(c.usable_count(), "254");
    let (lo, hi) = c.usable_range();
    assert_eq!(lo.to_string(), "10.0.0.1");
    assert_eq!(hi.to_string(), "10.0.0.254");
}

#[test]
fn a_host_address_normalizes_to_its_network_on_display() {
    // .5 is not network-aligned for a /24; network() must still resolve
    // to .0, and the text form should show the normalized form.
    let c = Cidr::parse("10.0.0.5/24").unwrap();
    assert_eq!(c.network().to_string(), "10.0.0.0");
    assert_eq!(c.to_string(), "10.0.0.0/24");
}

#[test]
fn slash_16_matches_hand_computed_values() {
    let c = Cidr::parse("172.16.0.0/16").unwrap();
    assert_eq!(c.netmask().to_string(), "255.255.0.0");
    assert_eq!(c.highest().to_string(), "172.16.255.255");
    assert_eq!(c.total_addresses(), "65536");
    assert_eq!(c.usable_count(), "65534");
}

// RFC 3021: /31 has no network/broadcast reservation, both addresses usable.
#[test]
fn slash_31_has_two_usable_addresses_per_rfc3021() {
    let c = Cidr::parse("10.0.0.0/31").unwrap();
    assert_eq!(c.network().to_string(), "10.0.0.0");
    assert_eq!(c.highest().to_string(), "10.0.0.1");
    assert_eq!(c.total_addresses(), "2");
    assert_eq!(c.usable_count(), "2");
    let (lo, hi) = c.usable_range();
    assert_eq!(lo.to_string(), "10.0.0.0");
    assert_eq!(hi.to_string(), "10.0.0.1");
}

// /32 is a single host: network == highest == the address itself.
#[test]
fn slash_32_is_a_single_host() {
    let c = Cidr::parse("10.0.0.7/32").unwrap();
    assert_eq!(c.network().to_string(), "10.0.0.7");
    assert_eq!(c.highest().to_string(), "10.0.0.7");
    assert_eq!(c.total_addresses(), "1");
    assert_eq!(c.usable_count(), "1");
    let (lo, hi) = c.usable_range();
    assert_eq!(lo.to_string(), "10.0.0.7");
    assert_eq!(hi.to_string(), "10.0.0.7");
}

#[test]
fn slash_0_covers_the_entire_v4_space() {
    let c = Cidr::parse("0.0.0.0/0").unwrap();
    assert_eq!(c.network().to_string(), "0.0.0.0");
    assert_eq!(c.highest().to_string(), "255.255.255.255");
    assert_eq!(c.total_addresses(), "4294967296"); // 2^32
}

#[test]
fn ipv6_slash_64_matches_hand_computed_values() {
    let c = Cidr::parse("2001:db8::/64").unwrap();
    assert!(!c.is_v4());
    assert_eq!(c.network().to_string(), "2001:db8::");
    assert_eq!(c.highest().to_string(), "2001:db8::ffff:ffff:ffff:ffff");
    assert_eq!(c.total_addresses(), "18446744073709551616"); // 2^64
}

#[test]
fn ipv6_slash_127_has_two_usable_addresses() {
    let c = Cidr::parse("2001:db8::/127").unwrap();
    assert_eq!(c.usable_count(), "2");
}

#[test]
fn ipv6_slash_128_is_a_single_host() {
    let c = Cidr::parse("::1/128").unwrap();
    assert_eq!(c.network().to_string(), "::1");
    assert_eq!(c.highest().to_string(), "::1");
    assert_eq!(c.usable_count(), "1");
}

// The one case where the true count doesn't fit in a u128: must not panic.
#[test]
fn ipv6_slash_0_does_not_panic_and_reports_two_pow_128() {
    let c = Cidr::parse("::/0").unwrap();
    assert_eq!(c.total_addresses(), "340282366920938463463374607431768211456");
    assert_eq!(c.usable_count(), "340282366920938463463374607431768211454");
    assert_eq!(
        c.highest().to_string(),
        "ffff:ffff:ffff:ffff:ffff:ffff:ffff:ffff"
    );
}
