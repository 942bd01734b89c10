use socketup::addr::{parse_target, AddrError, SocketAddr};

fn loopback(port: u16) -> SocketAddr {
    SocketAddr::V4 { octets: [127, 0, 0, 1], port }
}

#[test]
fn parses_numeric_targets() {
    let addr = parse_target("127.0.0.1:8080").expect("must parse");
    assert_eq!(addr, loopback(8080));

    let v6 = parse_target("[::1]:8080").expect("must parse");
    assert_eq!(v6.port(), 8080);
}

#[test]
fn expands_shorthand_ports_to_loopback() {
    let bare = parse_target("8080").expect("must parse");
    let with_colon = parse_target(":8080").expect("must parse");
    let expected = loopback(8080);

    assert_eq!(bare, expected);
    assert_eq!(with_colon, expected);
}

#[test]
fn rejects_hostnames_and_invalid_values() {
    assert!(parse_target("localhost:8080").is_err());
    assert!(parse_target("example.com:80").is_err());
    assert!(parse_target("foo:1234").is_err());
    assert!(parse_target("127.0.0.1:0").is_err());
}

#[test]
fn each_error_kind_has_an_input() {
    assert_eq!(parse_target(""), Err(AddrError::Empty));
    assert_eq!(parse_target(" \t\n"), Err(AddrError::Empty));
    assert_eq!(parse_target(":"), Err(AddrError::InvalidPort));
    assert_eq!(parse_target("99999"), Err(AddrError::InvalidPort));
    assert_eq!(parse_target(":abc"), Err(AddrError::InvalidPort));
    assert_eq!(parse_target("0"), Err(AddrError::PortZero));
    assert_eq!(parse_target(":0"), Err(AddrError::PortZero));
    assert_eq!(parse_target("127.0.0.1:0"), Err(AddrError::PortZero));
    assert_eq!(parse_target("[::1]:0"), Err(AddrError::PortZero));
    assert_eq!(parse_target("localhost:8080"), Err(AddrError::NonNumeric));
    assert_eq!(parse_target("127.0.0.1"), Err(AddrError::NonNumeric));
}

#[test]
fn error_messages() {
    assert_eq!(AddrError::Empty.message(), "empty target");
    assert_eq!(AddrError::InvalidPort.message(), "invalid port");
    assert_eq!(AddrError::PortZero.message(), "port must be > 0");
    assert_eq!(AddrError::NonNumeric.message(), "target must be numeric ip:port");
}

#[test]
fn surrounding_whitespace_is_ignored() {
    assert_eq!(parse_target("  127.0.0.1:8080\n"), Ok(loopback(8080)));
    assert_eq!(parse_target("\u{3000}8080\u{a0}"), Ok(loopback(8080)));
    assert_eq!(parse_target(" :9901 "), Ok(loopback(9901)));
}

#[test]
fn shorthand_accepts_a_plus_sign_and_leading_zeros() {
    assert_eq!(parse_target(":+80"), Ok(loopback(80)));
    assert_eq!(parse_target("0080"), Ok(loopback(80)));
    assert_eq!(parse_target("65535"), Ok(loopback(65535)));
    assert_eq!(parse_target("65536"), Err(AddrError::InvalidPort));
    assert_eq!(parse_target(":+"), Err(AddrError::InvalidPort));
    assert_eq!(parse_target(":-1"), Err(AddrError::InvalidPort));
}

#[test]
fn ipv4_octets_follow_the_dotted_quad_grammar() {
    assert_eq!(
        parse_target("10.20.30.255:1"),
        Ok(SocketAddr::V4 { octets: [10, 20, 30, 255], port: 1 })
    );
    assert_eq!(parse_target("0.0.0.0:65535"), Ok(SocketAddr::V4 { octets: [0, 0, 0, 0], port: 65535 }));
    assert_eq!(parse_target("1.2.3.4:0080"), Ok(SocketAddr::V4 { octets: [1, 2, 3, 4], port: 80 }));
    assert_eq!(parse_target("01.2.3.4:80"), Err(AddrError::NonNumeric));
    assert_eq!(parse_target("256.2.3.4:80"), Err(AddrError::NonNumeric));
    assert_eq!(parse_target("1.2.3:80"), Err(AddrError::NonNumeric));
    assert_eq!(parse_target("1.2.3.4.5:80"), Err(AddrError::NonNumeric));
    assert_eq!(parse_target("1.2.3.4:65536"), Err(AddrError::NonNumeric));
    assert_eq!(parse_target("1.2.3.4:"), Err(AddrError::NonNumeric));
    assert_eq!(parse_target("1.2.3.4:80:1"), Err(AddrError::NonNumeric));
    assert_eq!(parse_target("1..3.4:80"), Err(AddrError::NonNumeric));
}

#[test]
fn ipv6_groups_and_compression() {
    assert_eq!(
        parse_target("[::1]:8080"),
        Ok(SocketAddr::V6 { segments: [0, 0, 0, 0, 0, 0, 0, 1], port: 8080, scope_id: 0 })
    );
    assert_eq!(
        parse_target("[1:2:3:4:5:6:7:8]:80"),
        Ok(SocketAddr::V6 { segments: [1, 2, 3, 4, 5, 6, 7, 8], port: 80, scope_id: 0 })
    );
    assert_eq!(
        parse_target("[fe80::aB:C%3]:443"),
        Ok(SocketAddr::V6 { segments: [0xfe80, 0, 0, 0, 0, 0, 0xab, 0xc], port: 443, scope_id: 3 })
    );
    assert_eq!(
        parse_target("[::ffff:192.168.0.1]:80"),
        Ok(SocketAddr::V6 {
            segments: [0, 0, 0, 0, 0, 0xffff, 0xc0a8, 0x0001],
            port: 80,
            scope_id: 0
        })
    );
    assert_eq!(
        parse_target("[1:2:3:4:5:6:1.2.3.4]:80"),
        Ok(SocketAddr::V6 { segments: [1, 2, 3, 4, 5, 6, 0x0102, 0x0304], port: 80, scope_id: 0 })
    );
    assert_eq!(
        parse_target("[1:2:3:4:5:6:7::]:80"),
        Ok(SocketAddr::V6 { segments: [1, 2, 3, 4, 5, 6, 7, 0], port: 80, scope_id: 0 })
    );
    assert_eq!(
        parse_target("[::]:80"),
        Ok(SocketAddr::V6 { segments: [0; 8], port: 80, scope_id: 0 })
    );
    assert_eq!(parse_target("[1:2:3:4:5:6:7]:80"), Err(AddrError::NonNumeric));
    assert_eq!(parse_target("[1:2:3:4:5:6:7:8:9]:80"), Err(AddrError::NonNumeric));
    assert_eq!(parse_target("[1::2::3]:80"), Err(AddrError::NonNumeric));
    assert_eq!(parse_target("[:::]:80"), Err(AddrError::NonNumeric));
    assert_eq!(parse_target("[12345::]:80"), Err(AddrError::NonNumeric));
    assert_eq!(parse_target("[1.2.3.4::]:80"), Err(AddrError::NonNumeric));
    assert_eq!(parse_target("[1:2:3:4:5:6:7::1.2.3.4]:80"), Err(AddrError::NonNumeric));
    assert_eq!(parse_target("[::1]"), Err(AddrError::NonNumeric));
    assert_eq!(parse_target("[::1]:"), Err(AddrError::NonNumeric));
    assert_eq!(parse_target("[::1%]:80"), Err(AddrError::NonNumeric));
    assert_eq!(parse_target("[::1]]:80"), Err(AddrError::NonNumeric));
    assert_eq!(parse_target("::1:80"), Err(AddrError::InvalidPort));
}
