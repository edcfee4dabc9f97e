use iputil::cidr::Cidr;
use iputil::ipaddr::IpAddr;
use iputil::ipparse::parse_ip_str;

fn v6(s: &str) -> u128 {
    match parse_ip_str(s) {
        Some(IpAddr::V6(v)) => v,
        other => panic!("{s} did not read as IPv6: {other:?}"),
    }
}

#[test]
fn ipv4_text_is_dotted_quad() {
    assert_eq!(IpAddr::V4(0x0a00_0001).to_string(), "10.0.0.1");
    assert_eq!(IpAddr::V4(0).to_string(), "0.0.0.0");
    assert_eq!(IpAddr::V4(u32::MAX).to_string(), "255.255.255.255");
    assert_eq!(IpAddr::V4(0xc0a8_6405).to_string(), "192.168.100.5");
}

#[test]
fn ipv6_text_compresses_the_longest_zero_run() {
    assert_eq!(IpAddr::V6(0).to_string(), "::");
    assert_eq!(IpAddr::V6(1).to_string(), "::1");
    assert_eq!(IpAddr::V6(1u128 << 112).to_string(), "1::");
    // Two runs of two zero groups: the first one is compressed.
    assert_eq!(IpAddr::V6(v6("1:0:0:2:0:0:3:4")).to_string(), "1::2:0:0:3:4");
    // A longer run later wins over a shorter one earlier.
    assert_eq!(IpAddr::V6(v6("1:0:0:2:0:0:0:4")).to_string(), "1:0:0:2::4");
    // A single zero group is not compressed.
    assert_eq!(IpAddr::V6(v6("1:0:2:3:4:5:6:7")).to_string(), "1:0:2:3:4:5:6:7");
    // Groups are written in lower case without leading zeros.
    assert_eq!(IpAddr::V6(v6("2001:0DB8:000a::00FF")).to_string(), "2001:db8:a::ff");
}

#[test]
fn ipv4_mapped_ipv6_is_written_with_a_dotted_quad() {
    let v = 0xffff_0102_0304u128;
    assert_eq!(IpAddr::V6(v).to_string(), "::ffff:1.2.3.4");
    assert_eq!(v6("::ffff:1.2.3.4"), v);
    // IPv4-compatible (not mapped) addresses use plain groups.
    assert_eq!(IpAddr::V6(0x0102_0304).to_string(), "::102:304");
}

#[test]
fn ipv6_text_accepts_an_embedded_ipv4_tail() {
    assert_eq!(v6("1:2:3:4:5:6:1.2.3.4"), v6("1:2:3:4:5:6:102:304"));
    assert_eq!(v6("::1.2.3.4"), 0x0102_0304);
    assert_eq!(v6("1:2:3:4:5::1.2.3.4"), v6("1:2:3:4:5:0:102:304"));
}

#[test]
fn ipv6_text_allows_a_double_colon_that_stands_for_one_group() {
    assert_eq!(v6("1:2:3:4:5:6:7::"), v6("1:2:3:4:5:6:7:0"));
    assert_eq!(v6("::2:3:4:5:6:7:8"), v6("0:2:3:4:5:6:7:8"));
}

#[test]
fn malformed_addresses_are_refused() {
    for s in [
        "", "1.2.3", "1.2.3.4.5", "1.2.3.04", "256.1.1.1", "1.2.3.4 ", "+1.2.3.4", "1..2.3",
        ":", ":::", "1:::2", "1::2::3", "12345::", "1:2:3:4:5:6:7:8:9", "1:2:3:4:5:6:7:8::",
        "::1:2:3:4:5:6:7:8", "1:2:3:4:5:6:7", ":1::", "1::2:", "1.2.3.4::", "::1.2.3.4:5",
        "1:2:3:4:5:6::1.2.3.4", "1:2:3:4:5:6:7:1.2.3.4", "::g", "fe80::1%eth0", "[::1]",
    ] {
        assert_eq!(parse_ip_str(s), None, "{s:?} should be refused");
    }
}

#[test]
fn well_formed_addresses_read_and_write_as_expected() {
    let cases: [(&str, IpAddr, &str); 13] = [
        ("0.0.0.0", IpAddr::V4(0), "0.0.0.0"),
        ("10.0.0.1", IpAddr::V4(0x0a00_0001), "10.0.0.1"),
        ("255.255.255.255", IpAddr::V4(u32::MAX), "255.255.255.255"),
        ("::", IpAddr::V6(0), "::"),
        ("1::", IpAddr::V6(1u128 << 112), "1::"),
        ("2001:db8::", IpAddr::V6(0x2001_0db8u128 << 96), "2001:db8::"),
        ("fe80::1:2", IpAddr::V6((0xfe80u128 << 112) | 0x1_0002), "fe80::1:2"),
        ("::ffff:10.0.0.1", IpAddr::V6(0xffff_0a00_0001), "::ffff:10.0.0.1"),
        ("1:2:3:4:5:6:7:8", IpAddr::V6(0x0001_0002_0003_0004_0005_0006_0007_0008), "1:2:3:4:5:6:7:8"),
        ("1:0:0:2:0:0:3:4", IpAddr::V6(0x0001_0000_0000_0002_0000_0000_0003_0004), "1::2:0:0:3:4"),
        ("0:0:1::", IpAddr::V6(1u128 << 80), "0:0:1::"),
        ("::ffff:0:0", IpAddr::V6(0xffff_0000_0000), "::ffff:0.0.0.0"),
        ("64:ff9b::192.0.2.33", IpAddr::V6((0x64u128 << 112) | (0xff9bu128 << 96) | 0xc000_0221), "64:ff9b::c000:221"),
    ];
    for (input, addr, text) in cases {
        assert_eq!(parse_ip_str(input), Some(addr), "{input:?}");
        assert_eq!(addr.to_string(), text, "{input:?}");
    }
}

#[test]
fn address_text_reads_back() {
    for v in [0u128, 1, 0xffff_0a00_0001, 0x2001_0db8_0000_0000_0000_0000_0000_0001, u128::MAX,
        0x0001_0000_0000_0002_0000_0000_0000_0003] {
        let text = IpAddr::V6(v).to_string();
        assert_eq!(parse_ip_str(&text), Some(IpAddr::V6(v)), "{text}");
    }
    for v in [0u32, 1, 0x0a00_0000, u32::MAX, 0xac10_fe01] {
        let text = IpAddr::V4(v).to_string();
        assert_eq!(parse_ip_str(&text), Some(IpAddr::V4(v)), "{text}");
    }
}

#[test]
fn block_text_reads_back_as_the_normalized_block() {
    for s in ["10.0.0.5/24", "0.0.0.0/0", "10.0.0.7/32", "2001:db8::1/64", "::/0", "::ffff:1.2.3.4/120"] {
        let c = Cidr::parse(s).unwrap();
        let again = Cidr::parse(&c.to_string()).unwrap();
        assert_eq!(again.to_string(), c.to_string());
        assert_eq!(again.network(), c.network());
        assert_eq!(again.prefix(), c.prefix());
        assert_eq!(again.is_v4(), c.is_v4());
        assert_eq!(Cidr::parse(&again.to_string()).unwrap(), again);
    }
}
