use host_port_pair::{Host, HostPortPair, HostPortPairError, IpAddress, Ipv4Address, PortParseError};

fn name_of(pair: &HostPortPair) -> String {
    match pair.host() {
        Host::DnsName(n) => n.clone(),
        Host::IpAddr(_) => panic!("expected a name host"),
    }
}

#[test]
fn domain_and_port() {
    let pair = HostPortPair::parse("example.com:80").unwrap();
    assert!(pair.host().is_dns_name());
    assert!(!pair.host().is_ip_address());
    assert_eq!(name_of(&pair), "example.com");
    assert_eq!(pair.port(), 80);
}

#[test]
fn empty_domain_is_accepted() {
    let pair = HostPortPair::parse(":80").unwrap();
    assert_eq!(name_of(&pair), "");
    assert_eq!(pair.port(), 80);
}

#[test]
fn v4_literal_takes_priority_over_domain() {
    let pair = HostPortPair::parse("1.2.3.4:80").unwrap();
    assert!(pair.host().is_ip_address());
    match pair.host() {
        Host::IpAddr(IpAddress::V4(x)) => {
            assert_eq!(*x, Ipv4Address { a: 1, b: 2, c: 3, d: 4 });
        }
        _ => panic!("expected an IPv4 host"),
    }
    assert_eq!(pair.port(), 80);
}

#[test]
fn no_colon_fails_with_no_port() {
    assert_eq!(
        HostPortPair::parse("example.com").unwrap_err(),
        HostPortPairError::NoPort
    );
    assert_eq!(HostPortPair::parse("").unwrap_err(), HostPortPairError::NoPort);
}

#[test]
fn space_in_domain_is_reported_at_its_offset() {
    assert_eq!(
        HostPortPair::parse("exa mple.com:80").unwrap_err(),
        HostPortPairError::InvalidCharacterInDomain(3, ' ')
    );
}

#[test]
fn oversized_port_fails_with_parse_port() {
    assert_eq!(
        HostPortPair::parse("example.com:999999").unwrap_err(),
        HostPortPairError::ParsePort(PortParseError::Overflow)
    );
    assert_eq!(
        HostPortPair::parse("example.com:65536").unwrap_err(),
        HostPortPairError::ParsePort(PortParseError::Overflow)
    );
}

#[test]
fn port_bounds_are_inclusive() {
    assert_eq!(HostPortPair::parse("example.com:0").unwrap().port(), 0);
    assert_eq!(HostPortPair::parse("example.com:65535").unwrap().port(), 65535);
}

#[test]
fn bad_port_digits() {
    assert_eq!(
        HostPortPair::parse("example.com:").unwrap_err(),
        HostPortPairError::ParsePort(PortParseError::Empty)
    );
    assert_eq!(
        HostPortPair::parse("example.com:+80").unwrap_err(),
        HostPortPairError::ParsePort(PortParseError::InvalidDigit)
    );
    assert_eq!(
        HostPortPair::parse("example.com:-1").unwrap_err(),
        HostPortPairError::ParsePort(PortParseError::InvalidDigit)
    );
    assert_eq!(
        HostPortPair::parse("example.com:8 0").unwrap_err(),
        HostPortPairError::ParsePort(PortParseError::InvalidDigit)
    );
    assert_eq!(
        HostPortPair::parse("example.com:080").unwrap_err(),
        HostPortPairError::ParsePort(PortParseError::LeadingZero)
    );
}

#[test]
fn port_error_precedes_domain_error() {
    // The tail is checked before the head, so the bad head is not yet reported.
    assert_eq!(
        HostPortPair::parse("exa mple.com:x").unwrap_err(),
        HostPortPairError::ParsePort(PortParseError::InvalidDigit)
    );
}

#[test]
fn domain_alphabet_is_complete() {
    let pair = HostPortPair::parse("aZ-9._:1").unwrap();
    assert_eq!(name_of(&pair), "aZ-9._");
    assert_eq!(
        HostPortPair::parse("a/b:80").unwrap_err(),
        HostPortPairError::InvalidCharacterInDomain(1, '/')
    );
    assert_eq!(
        HostPortPair::parse("a\u{e9}b:80").unwrap_err(),
        HostPortPairError::InvalidCharacterInDomain(1, '\u{e9}')
    );
}

#[test]
fn colon_is_only_the_separator() {
    // The split is at the last colon; earlier ones are invalid domain bytes.
    assert_eq!(
        HostPortPair::parse("a:b:80").unwrap_err(),
        HostPortPairError::InvalidCharacterInDomain(1, ':')
    );
}

#[test]
fn unbracketed_v6_is_no_socket_literal() {
    assert_eq!(
        HostPortPair::parse("::1:8080").unwrap_err(),
        HostPortPairError::InvalidCharacterInDomain(0, ':')
    );
}
