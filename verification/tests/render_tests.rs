use iputil::cidr::Cidr;
use iputil::render::{render_info, render_split};

#[test]
fn info_uses_broadcast_label_for_v4() {
    let c = Cidr::parse("10.0.0.0/24").unwrap();
    let text = render_info(&c);
    assert!(text.contains("Broadcast:"));
    assert!(text.contains("10.0.0.255"));
}

#[test]
fn info_uses_highest_label_for_v6() {
    let c = Cidr::parse("2001:db8::/64").unwrap();
    let text = render_info(&c);
    assert!(text.contains("Highest:"));
    assert!(!text.contains("Broadcast:"));
}

#[test]
fn split_renders_one_cidr_per_line() {
    let c = Cidr::parse("10.0.0.0/24").unwrap();
    let subnets = iputil::split::split_by_prefix(&c, 26).unwrap();
    let text = render_split(&subnets);
    assert_eq!(text.lines().count(), 4);
    assert_eq!(text.lines().next().unwrap(), "10.0.0.0/26");
}
