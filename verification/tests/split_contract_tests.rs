use iputil::cidr::Cidr;
use iputil::ipaddr::IpAddr;
use iputil::split::{split_by_count, split_by_prefix};

fn bits(a: IpAddr) -> u128 {
    match a {
        IpAddr::V4(v) => v as u128,
        IpAddr::V6(v) => v,
    }
}

#[test]
fn split_error_messages_are_exact() {
    let c = Cidr::parse("10.0.0.0/24").unwrap();
    assert_eq!(
        split_by_prefix(&c, 23).unwrap_err(),
        "new prefix /23 is shorter than /24; splitting only widens the prefix"
    );
    assert_eq!(
        split_by_prefix(&c, 33).unwrap_err(),
        "/33 exceeds /32, the max for this address family"
    );
    assert_eq!(
        split_by_count(&c, 3).unwrap_err(),
        "3 is not a power of two; CIDR splitting only produces power-of-two subnet counts (try 4)"
    );
    assert_eq!(split_by_count(&c, 0).unwrap_err(), "cannot split into 0 subnets");
    assert_eq!(
        split_by_count(&c, 5).unwrap_err(),
        "5 is not a power of two; CIDR splitting only produces power-of-two subnet counts (try 8)"
    );
}

#[test]
fn splitting_into_2_pow_64_subnets_is_refused() {
    let c = Cidr::parse("::/0").unwrap();
    assert_eq!(
        split_by_prefix(&c, 64).unwrap_err(),
        "splitting into 2^64 subnets is not supported (too many to enumerate)"
    );
    assert_eq!(split_by_prefix(&c, 2).unwrap().len(), 4);
}

#[test]
fn split_by_count_uses_the_exponent_of_the_count() {
    let c = Cidr::parse("10.0.0.0/16").unwrap();
    assert_eq!(split_by_count(&c, 256).unwrap(), split_by_prefix(&c, 24).unwrap());
    assert_eq!(split_by_count(&c, 1).unwrap(), split_by_prefix(&c, 16).unwrap());
    let err = split_by_count(&c, 1 << 17).unwrap_err();
    assert_eq!(err, "/33 exceeds /32, the max for this address family");
}

#[test]
fn a_split_tiles_the_block_exactly() {
    for (s, p) in [("10.0.0.0/22", 24u8), ("10.1.2.3/16", 20), ("2001:db8::/32", 36), ("0.0.0.0/0", 3)] {
        let c = Cidr::parse(s).unwrap();
        let subnets = split_by_prefix(&c, p).unwrap();
        assert_eq!(subnets.len(), 1usize << (p - c.prefix()));
        assert_eq!(subnets[0].network(), c.network());
        for pair in subnets.windows(2) {
            assert_eq!(bits(pair[1].network()), bits(pair[0].highest()) + 1);
        }
        assert_eq!(subnets.last().unwrap().highest(), c.highest());
        for sub in &subnets {
            assert_eq!(sub.prefix(), p);
            assert_eq!(sub.is_v4(), c.is_v4());
        }
    }
}

#[test]
fn splitting_a_host_address_into_its_prefix_normalizes_it() {
    let c = Cidr::parse("10.0.0.5/24").unwrap();
    let subnets = split_by_prefix(&c, 24).unwrap();
    assert_eq!(subnets.len(), 1);
    assert_eq!(subnets[0].to_string(), "10.0.0.0/24");
    assert_eq!(subnets[0], Cidr::parse("10.0.0.0/24").unwrap());
}

#[test]
fn counts_above_2_pow_63_are_refused_with_2_pow_64_as_suggestion() {
    let c = Cidr::parse("10.0.0.0/24").unwrap();
    assert_eq!(
        split_by_count(&c, u64::MAX).unwrap_err(),
        "18446744073709551615 is not a power of two; CIDR splitting only produces power-of-two subnet counts (try 18446744073709551616)"
    );
    let err = split_by_count(&c, (1u64 << 63) + 1).unwrap_err();
    assert!(err.contains("not a power of two"), "{err}");
    assert!(err.ends_with("(try 18446744073709551616)"), "{err}");
    // 2^63 itself is a power of two: too many extra bits for a /24.
    assert_eq!(
        split_by_count(&c, 1u64 << 63).unwrap_err(),
        "/87 exceeds /32, the max for this address family"
    );
}

#[test]
fn splitting_in_two_steps_equals_splitting_at_once() {
    for (s, q, p) in [("10.0.0.0/22", 23u8, 25u8), ("2001:db8::/32", 34, 36), ("10.0.0.5/24", 24, 26)] {
        let c = Cidr::parse(s).unwrap();
        let two_steps: Vec<Cidr> = split_by_prefix(&c, q)
            .unwrap()
            .iter()
            .flat_map(|sub| split_by_prefix(sub, p).unwrap())
            .collect();
        assert_eq!(two_steps, split_by_prefix(&c, p).unwrap(), "{s} via /{q} to /{p}");
    }
}
