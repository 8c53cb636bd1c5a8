use synac_client::addr::{parse_addr, parse_port_str, HostPort, DEFAULT_PORT};

#[test]
fn host_alone_takes_default_port() {
    assert_eq!(
        parse_addr("example.com"),
        Some(HostPort { host: "example.com".to_string(), port: DEFAULT_PORT })
    );
    assert_eq!(DEFAULT_PORT, 8439);
}

#[test]
fn host_with_port() {
    assert_eq!(
        parse_addr("example.com:9000"),
        Some(HostPort { host: "example.com".to_string(), port: 9000 })
    );
}

#[test]
fn unparsable_port_gives_nothing() {
    assert_eq!(parse_addr("example.com:abc"), None);
    assert_eq!(parse_addr("example.com:"), None);
    assert_eq!(parse_addr("example.com:70000"), None);
    assert_eq!(parse_addr("example.com:-1"), None);
}

#[test]
fn bracketed_address_gives_inner_host() {
    assert_eq!(
        parse_addr("[::1]:9000"),
        Some(HostPort { host: "::1".to_string(), port: 9000 })
    );
    assert_eq!(
        parse_addr("[::1]"),
        Some(HostPort { host: "::1".to_string(), port: DEFAULT_PORT })
    );
    assert_eq!(parse_addr("[::1"), None);
    assert_eq!(parse_addr("[::1]9000"), None);
    assert_eq!(parse_addr("[::1]:x"), None);
}

#[test]
fn bare_ipv6_literal_takes_default_port() {
    assert_eq!(
        parse_addr("::1"),
        Some(HostPort { host: "::1".to_string(), port: DEFAULT_PORT })
    );
    assert_eq!(
        parse_addr("fe80::1:2"),
        Some(HostPort { host: "fe80::1:2".to_string(), port: DEFAULT_PORT })
    );
    assert_eq!(
        parse_addr("127.0.0.1:80"),
        Some(HostPort { host: "127.0.0.1".to_string(), port: 80 })
    );
}

#[test]
fn port_parsing_follows_u16() {
    assert_eq!(parse_port_str("0"), Some(0));
    assert_eq!(parse_port_str("65535"), Some(65535));
    assert_eq!(parse_port_str("65536"), None);
    assert_eq!(parse_port_str("+80"), Some(80));
    assert_eq!(parse_port_str("+"), None);
    assert_eq!(parse_port_str(""), None);
    assert_eq!(parse_port_str("0080"), Some(80));
    assert_eq!(parse_port_str("8a"), None);
    for s in ["1", "443", "+9", "65535", "65536", "x", "99999999999"] {
        assert_eq!(parse_port_str(s), s.parse::<u16>().ok());
    }
}
