use iputil::cidr::Cidr;
use iputil::split::{split_by_count, split_by_prefix};

#[test]
fn splits_a_slash_24_into_four_slash_26s() {
    let c = Cidr::parse("10.0.0.0/24").unwrap();
    let subnets = split_by_prefix(&c, 26).unwrap();
    let rendered: Vec<String> = subnets.iter().map(|s| s.to_string()).collect();
    assert_eq!(
        rendered,
        vec![
            "10.0.0.0/26",
            "10.0.0.64/26",
            "10.0.0.128/26",
            "10.0.0.192/26"
        ]
    );
}

#[test]
fn split_by_count_of_four_matches_split_by_prefix_26() {
    let c = Cidr::parse("10.0.0.0/24").unwrap();
    let by_count = split_by_count(&c, 4).unwrap();
    let by_prefix = split_by_prefix(&c, 26).unwrap();
    assert_eq!(by_count, by_prefix);
}

#[test]
fn split_by_count_two_bisects_the_block() {
    let c = Cidr::parse("192.168.0.0/24").unwrap();
    let subnets = split_by_count(&c, 2).unwrap();
    let rendered: Vec<String> = subnets.iter().map(|s| s.to_string()).collect();
    assert_eq!(rendered, vec!["192.168.0.0/25", "192.168.0.128/25"]);
}

#[test]
fn non_power_of_two_count_is_rejected_with_a_suggestion() {
    let c = Cidr::parse("10.0.0.0/24").unwrap();
    let err = split_by_count(&c, 3).unwrap_err();
    assert!(err.contains("not a power of two"), "{err}");
    assert!(err.contains('4'), "{err}");
}

#[test]
fn zero_subnets_is_rejected() {
    let c = Cidr::parse("10.0.0.0/24").unwrap();
    assert!(split_by_count(&c, 0).is_err());
}

#[test]
fn splitting_into_a_shorter_prefix_is_rejected() {
    let c = Cidr::parse("10.0.0.0/24").unwrap();
    let err = split_by_prefix(&c, 23).unwrap_err();
    assert!(err.contains("shorter"), "{err}");
}

#[test]
fn splitting_beyond_the_address_width_is_rejected() {
    let c = Cidr::parse("10.0.0.0/24").unwrap();
    let err = split_by_prefix(&c, 33).unwrap_err();
    assert!(err.contains("exceeds"), "{err}");
}

#[test]
fn splitting_into_the_same_prefix_returns_the_block_unchanged() {
    let c = Cidr::parse("10.0.0.0/24").unwrap();
    let subnets = split_by_prefix(&c, 24).unwrap();
    assert_eq!(subnets, vec![c]);
}

#[test]
fn split_covers_the_whole_original_block_with_no_gaps_or_overlap() {
    let c = Cidr::parse("10.0.0.0/22").unwrap();
    let subnets = split_by_prefix(&c, 24).unwrap();
    assert_eq!(subnets.len(), 4);
    // Each subnet's network address should be exactly one /24 block
    // (256 addresses) past the previous one, and the last one's highest
    // address should land exactly on the original block's highest address.
    let starts: Vec<String> = subnets.iter().map(|s| s.network().to_string()).collect();
    assert_eq!(starts, vec!["10.0.0.0", "10.0.1.0", "10.0.2.0", "10.0.3.0"]);
    assert_eq!(subnets.last().unwrap().highest(), c.highest());
}

#[test]
fn splits_an_ipv6_block_correctly() {
    let c = Cidr::parse("2001:db8::/32").unwrap();
    let subnets = split_by_prefix(&c, 34).unwrap();
    let rendered: Vec<String> = subnets.iter().map(|s| s.to_string()).collect();
    assert_eq!(
        rendered,
        vec![
            "2001:db8::/34",
            "2001:db8:4000::/34",
            "2001:db8:8000::/34",
            "2001:db8:c000::/34",
        ]
    );
}

#[test]
fn splitting_a_slash_0_into_itself_does_not_panic() {
    let c = Cidr::parse("::/0").unwrap();
    let subnets = split_by_prefix(&c, 0).unwrap();
    assert_eq!(subnets, vec![c]);
}
