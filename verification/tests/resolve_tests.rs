use pingpong::resolve::{first_address, parse_ip, parse_ipv4, parse_ipv6, IpAddress, ResolutionError};

fn v6(hi: u64, lo: u64) -> Option<IpAddress> {
    Some(IpAddress::V6 { hi, lo })
}

#[test]
fn dotted_quads_parse_to_their_octets() {
    assert_eq!(
        parse_ipv4("127.0.0.1"),
        Some(IpAddress::V4 { a: 127, b: 0, c: 0, d: 1 })
    );
    assert_eq!(
        parse_ipv4("8.8.8.8"),
        Some(IpAddress::V4 { a: 8, b: 8, c: 8, d: 8 })
    );
    assert_eq!(
        parse_ipv4("0.0.0.0"),
        Some(IpAddress::V4 { a: 0, b: 0, c: 0, d: 0 })
    );
    assert_eq!(
        parse_ipv4("255.255.255.255"),
        Some(IpAddress::V4 { a: 255, b: 255, c: 255, d: 255 })
    );
    assert_eq!(
        parse_ipv4("192.168.10.254"),
        Some(IpAddress::V4 { a: 192, b: 168, c: 10, d: 254 })
    );
}

#[test]
fn non_literals_are_rejected() {
    assert_eq!(parse_ipv4(""), None);
    assert_eq!(parse_ipv4("localhost"), None);
    assert_eq!(parse_ipv4("google.com"), None);
    assert_eq!(parse_ipv4("1.2.3"), None);
    assert_eq!(parse_ipv4("1.2.3.4.5"), None);
    assert_eq!(parse_ipv4("256.0.0.1"), None);
    assert_eq!(parse_ipv4("1.2.3.999"), None);
    assert_eq!(parse_ipv4("01.2.3.4"), None);
    assert_eq!(parse_ipv4("1.2.3.04"), None);
    assert_eq!(parse_ipv4("1..3.4"), None);
    assert_eq!(parse_ipv4(".1.2.3"), None);
    assert_eq!(parse_ipv4("1.2.3."), None);
    assert_eq!(parse_ipv4("a.b.c.d"), None);
    assert_eq!(parse_ipv4("1.2.3.4 "), None);
    assert_eq!(parse_ipv4("1.2.3.1234"), None);
    assert_eq!(parse_ipv4("☃.2.3.4"), None);
}

#[test]
fn hexadecimal_literals_parse_to_their_groups() {
    assert_eq!(parse_ipv6("::"), v6(0, 0));
    assert_eq!(parse_ipv6("::1"), v6(0, 1));
    assert_eq!(parse_ipv6("1::"), v6(0x0001_0000_0000_0000, 0));
    assert_eq!(parse_ipv6("fe80::1"), v6(0xfe80_0000_0000_0000, 1));
    assert_eq!(
        parse_ipv6("2001:db8::8:800:200c:417a"),
        v6(0x2001_0db8_0000_0000, 0x0008_0800_200c_417a)
    );
    assert_eq!(
        parse_ipv6("1:2:3:4:5:6:7:8"),
        v6(0x0001_0002_0003_0004, 0x0005_0006_0007_0008)
    );
    assert_eq!(
        parse_ipv6("1:2:3:4:5:6:7::"),
        v6(0x0001_0002_0003_0004, 0x0005_0006_0007_0000)
    );
    assert_eq!(
        parse_ipv6("::1:2:3:4:5:6:7"),
        v6(0x0000_0001_0002_0003, 0x0004_0005_0006_0007)
    );
    // Upper-case digits and leading zeros are allowed within a group.
    assert_eq!(parse_ipv6("00FF::"), v6(0x00ff_0000_0000_0000, 0));
}

#[test]
fn dotted_quad_tails_stand_for_two_groups() {
    assert_eq!(
        parse_ipv6("::ffff:192.0.2.128"),
        v6(0, 0x0000_ffff_c000_0280)
    );
    assert_eq!(
        parse_ipv6("1:2:3:4:5:6:1.2.3.4"),
        v6(0x0001_0002_0003_0004, 0x0005_0006_0102_0304)
    );
    assert_eq!(parse_ipv6("::1.2.3.4"), v6(0, 0x0102_0304));
    // A malformed quad in tail position is no literal.
    assert_eq!(parse_ipv6("::ffff:192.0.2.999"), None);
    assert_eq!(parse_ipv6("::ffff:01.0.2.9"), None);
}

#[test]
fn malformed_hexadecimal_literals_are_rejected() {
    assert_eq!(parse_ipv6(""), None);
    assert_eq!(parse_ipv6(":"), None);
    assert_eq!(parse_ipv6(":::"), None);
    assert_eq!(parse_ipv6("::1::"), None);
    assert_eq!(parse_ipv6("1:2:3"), None);
    assert_eq!(parse_ipv6("1:2:3:4:5:6:7"), None);
    assert_eq!(parse_ipv6("1:2:3:4:5:6:7:8:9"), None);
    // The compression stands for at least one zero group.
    assert_eq!(parse_ipv6("1:2:3:4:5:6:7:8::"), None);
    assert_eq!(parse_ipv6("1::2:3:4:5:6:7:8"), None);
    assert_eq!(parse_ipv6("12345::"), None);
    assert_eq!(parse_ipv6("g::"), None);
    assert_eq!(parse_ipv6("1:2::3:"), None);
    assert_eq!(parse_ipv6(":1::2"), None);
    assert_eq!(parse_ipv6("1.2.3.4"), None);
    assert_eq!(parse_ipv6("☃::"), None);
}

#[test]
fn parse_ip_covers_both_families() {
    assert_eq!(
        parse_ip("127.0.0.1"),
        Some(IpAddress::V4 { a: 127, b: 0, c: 0, d: 1 })
    );
    assert_eq!(parse_ip("::1"), v6(0, 1));
    assert_eq!(parse_ip("localhost"), None);
    assert_eq!(parse_ip("example.org"), None);
}

#[test]
fn resolution_takes_the_first_address() {
    let candidates = vec![
        IpAddress::V4 { a: 10, b: 0, c: 0, d: 1 },
        IpAddress::V4 { a: 10, b: 0, c: 0, d: 2 },
    ];
    assert_eq!(
        first_address(&candidates),
        Ok(IpAddress::V4 { a: 10, b: 0, c: 0, d: 1 })
    );
}

#[test]
fn empty_resolution_is_an_error() {
    let none: Vec<IpAddress> = Vec::new();
    assert_eq!(first_address(&none), Err(ResolutionError::NoAddresses));
}

#[test]
fn resolution_errors_describe_themselves() {
    assert_eq!(ResolutionError::LookupFailed.describe(), "DNS lookup failed");
    assert_eq!(ResolutionError::NoAddresses.describe(), "no IP addresses found");
}
