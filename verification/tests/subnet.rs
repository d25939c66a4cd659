use dpetoolbox::subnet::{calculate, ip_class, ip_to_u32, ip_type, parse_cidr, u32_to_binary, u32_to_ip, SubnetError};

#[test]
fn subnet_of_a_slash_24() {
    let info = calculate("192.168.1.77", 24).unwrap();
    assert_eq!(info.input_ip, "192.168.1.77");
    assert_eq!(info.cidr, 24);
    assert_eq!(info.network, "192.168.1.0");
    assert_eq!(info.broadcast, "192.168.1.255");
    assert_eq!(info.subnet_mask, "255.255.255.0");
    assert_eq!(info.wildcard_mask, "0.0.0.255");
    assert_eq!(info.first_host, "192.168.1.1");
    assert_eq!(info.last_host, "192.168.1.254");
    assert_eq!(info.total_hosts, 256);
    assert_eq!(info.usable_hosts, 254);
    assert_eq!(info.ip_class, "Class C");
    assert_eq!(info.ip_type, "Private (RFC 1918)");
    assert_eq!(info.binary_network, "11000000.10101000.00000001.00000000");
    assert_eq!(info.binary_mask, "11111111.11111111.11111111.00000000");
    assert_eq!(info.binary_broadcast, "11000000.10101000.00000001.11111111");
}

#[test]
fn subnet_edge_prefixes() {
    let host = calculate("8.8.8.8", 32).unwrap();
    assert_eq!(host.usable_hosts, 1);
    assert_eq!(host.first_host, "8.8.8.8");
    assert_eq!(host.last_host, "8.8.8.8");
    assert_eq!(host.ip_type, "Public");
    let pair = calculate("10.0.0.5", 31).unwrap();
    assert_eq!(pair.usable_hosts, 2);
    assert_eq!(pair.first_host, "10.0.0.4");
    assert_eq!(pair.last_host, "10.0.0.5");
    let all = calculate("1.2.3.4", 0).unwrap();
    assert_eq!(all.network, "0.0.0.0");
    assert_eq!(all.broadcast, "255.255.255.255");
    assert_eq!(all.total_hosts, 4294967296);
    assert_eq!(all.usable_hosts, 4294967294);
    assert_eq!(all.subnet_mask, "0.0.0.0");
}

#[test]
fn subnet_errors() {
    match calculate("10.0.0.1", 33) {
        Err(e @ SubnetError::PrefixTooLarge(33)) => assert_eq!(e.message(), "CIDR prefix must be 0-32, got 33"),
        _ => panic!("expected a prefix error"),
    }
    match calculate("10.0.0", 8) {
        Err(e @ SubnetError::InvalidIp(_)) => assert_eq!(e.message(), "Invalid IP address: 10.0.0"),
        _ => panic!("expected an address error"),
    }
}

#[test]
fn network_contains_its_hosts() {
    let info = calculate("172.20.5.9", 12).unwrap();
    assert_eq!(info.network, "172.16.0.0");
    assert_eq!(info.broadcast, "172.31.255.255");
    let again = calculate(&info.network, 12).unwrap();
    assert_eq!(again.network, info.network);
    assert_eq!(again.broadcast, info.broadcast);
}

#[test]
fn cidr_parsing() {
    assert_eq!(parse_cidr("192.168.1.0/24").unwrap(), ("192.168.1.0".to_string(), 24));
    assert_eq!(parse_cidr(" 10.0.0.1 / 8 ").unwrap(), ("10.0.0.1".to_string(), 8));
    match parse_cidr("10.0.0.1") {
        Err(e @ SubnetError::InvalidNotation(_)) => {
            assert_eq!(e.message(), "Invalid CIDR notation: 10.0.0.1. Expected format: X.X.X.X/N")
        }
        _ => panic!("expected a notation error"),
    }
    match parse_cidr("10.0.0.1/x") {
        Err(e @ SubnetError::InvalidPrefix(_)) => assert_eq!(e.message(), "Invalid CIDR prefix: x"),
        _ => panic!("expected a prefix error"),
    }
    assert!(matches!(parse_cidr("10.0.0.1/256"), Err(SubnetError::InvalidPrefix(_))));
    assert!(matches!(parse_cidr("a/b/c"), Err(SubnetError::InvalidNotation(_))));
}

#[test]
fn address_conversions() {
    assert_eq!(ip_to_u32("1.2.3.4"), Some(0x01020304));
    assert_eq!(ip_to_u32("1.2.x.3.4"), Some(0x01020304));
    assert_eq!(ip_to_u32("1.2.3"), None);
    assert_eq!(ip_to_u32("256.1.1.1"), None);
    assert_eq!(u32_to_ip(0xC0A80101), "192.168.1.1");
    assert_eq!(u32_to_binary(0x0A000001), "00001010.00000000.00000000.00000001");
    for n in [0u32, 1, 0x7f000001, 0xffffffff, 0x12345678] {
        assert_eq!(ip_to_u32(&u32_to_ip(n)), Some(n));
    }
}

#[test]
fn classes_and_kinds() {
    assert_eq!(ip_class(10), "Class A");
    assert_eq!(ip_class(128), "Class B");
    assert_eq!(ip_class(200), "Class C");
    assert_eq!(ip_class(230), "Class D (Multicast)");
    assert_eq!(ip_class(250), "Class E (Reserved)");
    assert_eq!(ip_type(0x7f000001), "Loopback");
    assert_eq!(ip_type(0xA9FE0001), "Link-Local (APIPA)");
    assert_eq!(ip_type(0xAC100001), "Private (RFC 1918)");
    assert_eq!(ip_type(0xAC200001), "Public");
    assert_eq!(ip_type(0xE0000001), "Multicast");
    assert_eq!(ip_type(0xF0000001), "Reserved");
}

#[test]
fn subnet_numbers_follow_the_bit_masks() {
    for (ip, cidr) in [("192.168.1.130", 26u8), ("10.200.3.7", 13), ("172.16.0.1", 0), ("8.8.8.8", 32), ("1.2.3.4", 31)] {
        let n = ip_to_u32(ip).unwrap();
        let m: u32 = if cidr == 0 { 0 } else { u32::MAX << (32 - cidr) };
        let s = calculate(ip, cidr).unwrap();
        assert_eq!(s.network, u32_to_ip(n & m));
        assert_eq!(s.broadcast, u32_to_ip(n | !m));
        assert_eq!(s.subnet_mask, u32_to_ip(m));
        assert_eq!(s.wildcard_mask, u32_to_ip(!m));
        assert_eq!(s.total_hosts, 1u64 << (32 - cidr));
    }
}

#[test]
fn dotted_text_reads_back_and_prints_the_same() {
    for (a, b, c, d) in [(0u8, 0u8, 0u8, 0u8), (255, 255, 255, 255), (10, 0, 200, 7), (192, 168, 1, 1)] {
        let text = format!("{}.{}.{}.{}", a, b, c, d);
        let n = ip_to_u32(&text).unwrap();
        assert_eq!(n, u32::from_be_bytes([a, b, c, d]));
        assert_eq!(u32_to_ip(n), text);
    }
}
