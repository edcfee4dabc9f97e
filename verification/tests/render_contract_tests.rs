use iputil::cidr::Cidr;
use iputil::render::{render_info, render_split};

#[test]
fn info_for_a_slash_24_is_the_documented_report() {
    let c = Cidr::parse("10.0.0.0/24").unwrap();
    assert_eq!(
        render_info(&c),
        "Network:      10.0.0.0/24\n\
         Netmask:      255.255.255.0\n\
         Wildcard:     0.0.0.255\n\
         Broadcast:    10.0.0.255\n\
         Host range:   10.0.0.1 - 10.0.0.254\n\
         Total addrs:  256\n\
         Usable hosts: 254"
    );
}

#[test]
fn info_for_an_ipv6_slash_64_is_the_documented_report() {
    let c = Cidr::parse("2001:db8::/64").unwrap();
    assert_eq!(
        render_info(&c),
        "Network:      2001:db8::/64\n\
         Netmask:      ffff:ffff:ffff:ffff::\n\
         Wildcard:     ::ffff:ffff:ffff:ffff\n\
         Highest:      2001:db8::ffff:ffff:ffff:ffff\n\
         Host range:   2001:db8::1 - 2001:db8::ffff:ffff:ffff:fffe\n\
         Total addrs:  18446744073709551616\n\
         Usable hosts: 18446744073709551614"
    );
}

#[test]
fn info_for_a_slash_31_uses_both_addresses() {
    let c = Cidr::parse("10.0.0.0/31").unwrap();
    let text = render_info(&c);
    assert!(text.contains("Host range:   10.0.0.0 - 10.0.0.1\n"));
    assert!(text.ends_with("Total addrs:  2\nUsable hosts: 2"));
}

#[test]
fn split_report_of_four_subnets() {
    let c = Cidr::parse("10.0.0.0/24").unwrap();
    let subnets = iputil::split::split_by_count(&c, 4).unwrap();
    assert_eq!(
        render_split(&subnets),
        "10.0.0.0/26\n10.0.0.64/26\n10.0.0.128/26\n10.0.0.192/26"
    );
    assert_eq!(render_split(&[]), "");
}
