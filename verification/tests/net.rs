use axon::net::{parse_socket_addr, SocketAddress};
use axon::peer_directory::types::PeerLocator;

fn parse(text: &str) -> Option<SocketAddress> {
    parse_socket_addr(&text.chars().collect())
}

fn v6(ip: u128, port: u16, scope_id: u32) -> SocketAddress {
    SocketAddress { v6: true, ip, port, flowinfo: 0, scope_id }
}

#[test]
fn ipv4_socket_addresses_parse() {
    assert_eq!(parse("10.0.0.1:7100"), Some(SocketAddress { v6: false, ip: 0x0a00_0001, port: 7100, flowinfo: 0, scope_id: 0 }));
    assert_eq!(parse("255.255.255.255:00080").map(|a| a.port), Some(80), "leading zeros in the port are read");
    assert_eq!(parse("01.2.3.4:80"), None, "no leading zero in an octet");
    assert_eq!(parse("256.2.3.4:80"), None);
    assert_eq!(parse("1.2.3.4:65536"), None);
    assert_eq!(parse("1.2.3.4"), None);
}

#[test]
fn ipv6_socket_addresses_parse() {
    assert_eq!(parse("[::1]:7100"), Some(v6(1, 7100, 0)));
    assert_eq!(parse("[::]:1"), Some(v6(0, 1, 0)));
    assert_eq!(parse("[2001:db8::1]:443"), Some(v6(0x2001_0db8_0000_0000_0000_0000_0000_0001, 443, 0)));
    assert_eq!(parse("[1:2:3:4:5:6:7:8]:9"), Some(v6(0x0001_0002_0003_0004_0005_0006_0007_0008, 9, 0)));
    assert_eq!(parse("[1:2:3:4:5:6:7::]:9"), Some(v6(0x0001_0002_0003_0004_0005_0006_0007_0000, 9, 0)));
    assert_eq!(parse("[::FFFF:1.2.3.4]:80"), Some(v6(0xffff_0102_0304, 80, 0)));
    assert_eq!(parse("[1:2:3:4:5:6:1.2.3.4]:80"), Some(v6(0x0001_0002_0003_0004_0005_0006_0102_0304, 80, 0)));
    assert_eq!(parse("[fe80::1%3]:80"), Some(v6(0xfe80_0000_0000_0000_0000_0000_0000_0001, 80, 3)));
}

#[test]
fn malformed_ipv6_socket_addresses_are_refused() {
    for text in [
        "[::1]",
        "::1:80",
        "[1:2:3:4:5:6:7:8:9]:80",
        "[1::2::3]:80",
        "[:::1]:80",
        "[12345::]:80",
        "[::1.2.3.4.5]:80",
        "[1.2.3.4::]:80",
        "[1:2:3:4:5:6::1.2.3.4]:80",
        "[::1%]:80",
        "[::1]:65536",
        "[::g]:80",
    ] {
        assert_eq!(parse(text), None, "{text}");
    }
}

#[test]
fn ipv6_locators_are_socket_addresses() {
    assert_eq!(PeerLocator::parse(" [::1]:7100 "), Ok(PeerLocator::Socket(v6(1, 7100, 0))));
    assert_eq!(
        PeerLocator::parse("Host.Example:7100"),
        Ok(PeerLocator::Host { host: "host.example".to_string(), port: 7100 })
    );
}
