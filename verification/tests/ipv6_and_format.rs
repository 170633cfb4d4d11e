use host_port_pair::{Host, HostPortPair, HostPortPairError, IpAddress, Ipv4Address, Ipv6Address};

fn v6(s0: u16, s1: u16, s2: u16, s3: u16, s4: u16, s5: u16, s6: u16, s7: u16) -> Ipv6Address {
    Ipv6Address { s0, s1, s2, s3, s4, s5, s6, s7 }
}

fn v6_of(pair: &HostPortPair) -> Ipv6Address {
    match pair.host() {
        Host::IpAddr(IpAddress::V6(x)) => *x,
        _ => panic!("expected an IPv6 host"),
    }
}

#[test]
fn bracketed_loopback() {
    let pair = HostPortPair::parse("[::1]:8080").unwrap();
    assert!(pair.host().is_ip_address());
    assert_eq!(v6_of(&pair), v6(0, 0, 0, 0, 0, 0, 0, 1));
    assert_eq!(pair.port(), 8080);
}

#[test]
fn expanded_and_compressed_forms_agree() {
    let a = HostPortPair::parse("[0:0:0:0:0:0:0:1]:1").unwrap();
    let b = HostPortPair::parse("[::1]:1").unwrap();
    assert_eq!(a, b);
}

#[test]
fn full_eight_groups() {
    let pair = HostPortPair::parse("[1:2:3:4:5:6:7:8]:9").unwrap();
    assert_eq!(v6_of(&pair), v6(1, 2, 3, 4, 5, 6, 7, 8));
}

#[test]
fn hex_case_and_leading_zeros_in_groups() {
    let pair = HostPortPair::parse("[2001:0DB8:ab:0:0:0:0:C]:443").unwrap();
    assert_eq!(v6_of(&pair), v6(0x2001, 0xdb8, 0xab, 0, 0, 0, 0, 0xc));
}

#[test]
fn embedded_v4_tail() {
    let pair = HostPortPair::parse("[::ffff:192.168.0.1]:80").unwrap();
    assert_eq!(v6_of(&pair), v6(0, 0, 0, 0, 0, 0xffff, 0xc0a8, 0x0001));
    let pair = HostPortPair::parse("[1:2:3:4:5:6:1.2.3.4]:80").unwrap();
    assert_eq!(v6_of(&pair), v6(1, 2, 3, 4, 5, 6, 0x0102, 0x0304));
}

#[test]
fn compression_stands_for_at_least_one_group() {
    let pair = HostPortPair::parse("[1:2:3:4:5:6:7::]:80").unwrap();
    assert_eq!(v6_of(&pair), v6(1, 2, 3, 4, 5, 6, 7, 0));
    assert!(HostPortPair::parse("[1:2:3:4:5:6:7:8::]:80").is_err());
    assert!(HostPortPair::parse("[::1:2:3:4:5:6:7:8]:80").is_err());
}

#[test]
fn malformed_v6_hosts() {
    assert!(HostPortPair::parse("[:::]:80").is_err());
    assert!(HostPortPair::parse("[1::2::3]:80").is_err());
    assert!(HostPortPair::parse("[12345::]:80").is_err());
    assert!(HostPortPair::parse("[:1:2]:80").is_err());
    assert!(HostPortPair::parse("[1:2]:80").is_err());
    assert!(HostPortPair::parse("[1.2.3.4]:80").is_err());
    assert!(HostPortPair::parse("[1.2.3.4::]:80").is_err());
    assert!(HostPortPair::parse("[::1]x:80").is_err());
    assert!(HostPortPair::parse("[::1]:").is_err());
}

#[test]
fn v4_text_is_canonical_only() {
    assert!(HostPortPair::parse("[::ffff:1.2.3.04]:80").is_err());
    let pair = HostPortPair::parse("1.2.3.04:80").unwrap();
    assert!(pair.host().is_dns_name());
    assert!(HostPortPair::parse("256.1.1.1:80").unwrap().host().is_dns_name());
}

#[test]
fn lenient_host_conversion() {
    assert!(Host::from_text("1.2.3.4").is_ip_address());
    assert!(Host::from_text("::").is_ip_address());
    assert!(Host::from_text("2001:db8::1").is_ip_address());
    let h = Host::from_text("any text at all! []");
    assert!(h.is_dns_name());
    match &h {
        Host::DnsName(n) => assert_eq!(n, "any text at all! []"),
        _ => unreachable!(),
    }
    // A leading zero keeps an almost-IPv4 literal a name.
    assert!(Host::from_text("1.2.3.04").is_dns_name());
}

#[test]
fn formats_v4_and_name_pairs() {
    let pair = HostPortPair::parse("1.2.3.4:80").unwrap();
    assert_eq!(pair.to_text(), "1.2.3.4:80");
    let pair = HostPortPair::parse("example.com:8080").unwrap();
    assert_eq!(pair.to_text(), "example.com:8080");
}

#[test]
fn formats_v6_canonically() {
    assert_eq!(Host::IpAddr(IpAddress::V6(v6(0, 0, 0, 0, 0, 0, 0, 0))).to_text(), "::");
    assert_eq!(Host::IpAddr(IpAddress::V6(v6(0, 0, 0, 0, 0, 0, 0, 1))).to_text(), "::1");
    assert_eq!(
        Host::IpAddr(IpAddress::V6(v6(0x2001, 0xdb8, 0, 0, 1, 0, 0, 1))).to_text(),
        "2001:db8::1:0:0:1"
    );
    assert_eq!(
        Host::IpAddr(IpAddress::V6(v6(1, 0, 2, 3, 4, 5, 6, 7))).to_text(),
        "1:0:2:3:4:5:6:7"
    );
    assert_eq!(
        Host::IpAddr(IpAddress::V6(v6(0, 0, 0, 0, 0, 0xffff, 0xc0a8, 1))).to_text(),
        "::ffff:192.168.0.1"
    );
    assert_eq!(
        Host::IpAddr(IpAddress::V6(v6(0xfe80, 0, 0, 0, 0x1234, 0, 0, 0))).to_text(),
        "fe80::1234:0:0:0"
    );
    // The longest zero run wins even when it comes later.
    assert_eq!(
        Host::IpAddr(IpAddress::V6(v6(1, 0, 0, 2, 3, 0, 0, 0))).to_text(),
        "1:0:0:2:3::"
    );
    assert_eq!(
        Host::IpAddr(IpAddress::V6(v6(0, 0, 1, 0, 0, 0, 1, 1))).to_text(),
        "0:0:1::1:1"
    );
}

#[test]
fn round_trip_v4_and_name() {
    for s in ["1.2.3.4:80", "example.com:8080", "a-b_c.D:0", "10.0.0.1:65535"] {
        let pair = HostPortPair::parse(s).unwrap();
        let again = HostPortPair::parse(&pair.to_text()).unwrap();
        assert_eq!(pair, again);
        assert_eq!(pair.to_text(), s);
    }
}

#[test]
fn round_trip_v6_is_lossy_without_brackets() {
    // The pair's own text adds no brackets, so IPv6 pairs do not re-parse:
    // the accepted limitation of the plain `host:port` form.
    let pair = HostPortPair::parse("[::1]:8080").unwrap();
    assert_eq!(pair.to_text(), "::1:8080");
    assert_eq!(
        HostPortPair::parse(&pair.to_text()).unwrap_err(),
        HostPortPairError::InvalidCharacterInDomain(0, ':')
    );
}

#[test]
fn accessors_and_mutation() {
    let mut pair = HostPortPair::new(Host::from_text("example.com"), 80);
    assert_eq!(pair.port(), 80);
    *pair.port_mut() = 443;
    assert_eq!(pair.port(), 443);
    *pair.host_mut() = Host::IpAddr(IpAddress::V4(Ipv4Address { a: 9, b: 8, c: 7, d: 6 }));
    assert!(pair.host().is_ip_address());
    assert_eq!(pair.to_text(), "9.8.7.6:443");
}

#[test]
fn conversions_from_address_types() {
    let h = Host::from(Ipv4Address { a: 127, b: 0, c: 0, d: 1 });
    assert!(h.is_ip_address());
    assert_eq!(h.to_text(), "127.0.0.1");
    let h = Host::from(v6(0, 0, 0, 0, 0, 0, 0, 1));
    assert_eq!(h.to_text(), "::1");
    let h = Host::from(IpAddress::V4(Ipv4Address { a: 8, b: 8, c: 8, d: 8 }));
    assert_eq!(h.to_text(), "8.8.8.8");
    let pair = HostPortPair::from((Host::from_text("example.com"), 443));
    assert_eq!(pair.to_text(), "example.com:443");
}

#[test]
fn equality_distinguishes_variants_and_fields() {
    let a = HostPortPair::parse("1.2.3.4:80").unwrap();
    let b = HostPortPair::parse("1.2.3.4:81").unwrap();
    assert_ne!(a, b);
    let c = HostPortPair::new(Host::DnsName(String::from("1.2.3.4")), 80);
    assert_ne!(a, c);
    let d = HostPortPair::parse("1.2.3.4:80").unwrap();
    assert_eq!(a, d);
}
