use dpetoolbox::conversations::{
    convert_to_bytes, export_position, flow_file_name, flow_name_from, format_bytes, is_byte_unit, parse_conversation_line,
    parse_conversations, Conversation,
};
use dpetoolbox::summary::{get_summary_lines, protocol_hierarchy_rows, report_rows, split_key_value};
use dpetoolbox::toptalkers::{is_unit, parse_endpoint_line, parse_endpoints, truncate_talkers};

fn conv(protocol: &str, port_a: &str, port_b: &str) -> Conversation {
    Conversation {
        protocol: protocol.to_string(),
        addr_a: "10.0.0.1".to_string(),
        port_a: port_a.to_string(),
        addr_b: "10.0.0.2".to_string(),
        port_b: port_b.to_string(),
        packets_a_to_b: 1,
        bytes_a_to_b: 2,
        packets_b_to_a: 3,
        bytes_b_to_a: 4,
        packets_total: 4,
        bytes_total: 6,
        duration: "1.5".to_string(),
    }
}

#[test]
fn bytes_are_formatted_by_magnitude() {
    assert_eq!(format_bytes(0), "0 B");
    assert_eq!(format_bytes(999), "999 B");
    assert_eq!(format_bytes(1000), "1.0 kB");
    assert_eq!(format_bytes(1500), "1.5 kB");
    assert_eq!(format_bytes(1_500_000), "1.50 MB");
    assert_eq!(format_bytes(2_345_678_901), "2.35 GB");
    assert_eq!(format_bytes(1_000_000_000), "1.00 GB");
    assert_eq!(format_bytes(999_999), "1000.0 kB");
}

#[test]
fn bytes_round_as_doubles_do() {
    assert_eq!(format_bytes(1050), "1.1 kB");
    assert_eq!(format_bytes(1250), "1.2 kB");
    assert_eq!(format_bytes(1_015_000), "1.01 MB");
    assert_eq!(format_bytes(1_005_000), "1.00 MB");
    assert_eq!(format_bytes(1_125_000), "1.12 MB");
    assert_eq!(format_bytes(12_345_678_905), "12.35 GB");
    assert_eq!(format_bytes(9_007_199_254_740_993), "9007199.25 GB");
    assert_eq!(format_bytes(u64::MAX), "18446744073.71 GB");
}

#[test]
fn display_filters_per_protocol() {
    assert_eq!(
        conv("TCP", "443", "5000").to_display_filter(),
        "(ip.addr==10.0.0.1 && ip.addr==10.0.0.2 && tcp.port==443 && tcp.port==5000)"
    );
    assert_eq!(
        conv("UDP", "53", "6000").to_display_filter(),
        "(ip.addr==10.0.0.1 && ip.addr==10.0.0.2 && udp.port==53 && udp.port==6000)"
    );
    assert_eq!(conv("IPv4", "", "").to_display_filter(), "(ip.addr==10.0.0.1 && ip.addr==10.0.0.2)");
}

#[test]
fn labels_and_summary_lines() {
    assert_eq!(conv("TCP", "443", "5000").label(), "[TCP] 10.0.0.1:443 <-> 10.0.0.2:5000");
    assert_eq!(conv("IPv4", "", "").label(), "[IPv4] 10.0.0.1 <-> 10.0.0.2");
    assert_eq!(
        conv("TCP", "443", "").summary_line(),
        "10.0.0.1:443 <-> 10.0.0.2  | pkts: 4 | bytes: 6 | dur: 1.5"
    );
}

#[test]
fn conversation_line_with_units() {
    let c = parse_conversation_line(
        "10.0.0.1:443 <-> 10.0.0.2:5000 10 1234 bytes 5 2 kB 15 3234 bytes 0.5 1.25",
        "TCP",
    )
    .unwrap();
    assert_eq!(c.protocol, "TCP");
    assert_eq!(c.addr_a, "10.0.0.1");
    assert_eq!(c.port_a, "443");
    assert_eq!(c.addr_b, "10.0.0.2");
    assert_eq!(c.port_b, "5000");
    assert_eq!(c.packets_a_to_b, 10);
    assert_eq!(c.bytes_a_to_b, 1234);
    assert_eq!(c.packets_b_to_a, 5);
    assert_eq!(c.bytes_b_to_a, 2000);
    assert_eq!(c.packets_total, 15);
    assert_eq!(c.bytes_total, 3234);
    assert_eq!(c.duration, "1.25");
}

#[test]
fn conversation_line_totals_fall_back_to_sums() {
    let c = parse_conversation_line("a <-> b 3 1,5 kB 4 2 MB", "IPv4").unwrap();
    assert_eq!(c.packets_a_to_b, 3);
    assert_eq!(c.bytes_a_to_b, 1500);
    assert_eq!(c.packets_b_to_a, 4);
    assert_eq!(c.bytes_b_to_a, 2_000_000);
    assert_eq!(c.packets_total, 7);
    assert_eq!(c.bytes_total, 2_001_500);
    assert_eq!(c.duration, "0.0");
    assert_eq!(c.port_a, "");
}

#[test]
fn conversation_line_needs_both_sides() {
    assert!(parse_conversation_line("<-> 10.0.0.2", "TCP").is_none());
    assert!(parse_conversation_line("10.0.0.1 <->", "TCP").is_none());
    assert!(parse_conversation_line("no arrow here", "TCP").is_none());
}

#[test]
fn conversations_from_tshark_output() {
    let out = "================\nTCP Conversations\nFilter:<No Filter>\n    |  <-  | |  ->  |\n    | Frames Bytes |\n10.0.0.1:1 <-> 10.0.0.2:2 1 60 bytes 1 60 bytes 2 120 bytes 0.0 0.1\nUDP Conversations\n10.0.0.3:53 <-> 10.0.0.4:99 1 70 bytes 0 0 bytes 1 70 bytes 0.0 0.2\n";
    let convs = parse_conversations(out);
    assert_eq!(convs.len(), 2);
    assert_eq!(convs[0].protocol, "TCP");
    assert_eq!(convs[0].bytes_total, 120);
    assert_eq!(convs[1].protocol, "UDP");
    assert_eq!(convs[1].addr_b, "10.0.0.4");
    assert_eq!(convs[1].duration, "0.2");
    assert!(parse_conversations("10.0.0.1 <-> 10.0.0.2 1 2 bytes").is_empty());
}

#[test]
fn byte_units() {
    for u in ["bytes", "kB", "MB", "GB", "TB"] {
        assert!(is_byte_unit(u));
        assert!(is_unit(u));
    }
    assert!(!is_byte_unit("KB"));
    assert!(!is_unit("b"));
}

#[test]
fn endpoint_line() {
    let t = parse_endpoint_line("10.0.0.1 100 15 kB 60 9 kB 40 6 kB").unwrap();
    assert_eq!(t.address, "10.0.0.1");
    assert_eq!(t.packets, 100);
    assert_eq!(t.bytes_raw, 15000);
    assert_eq!(t.bytes_display, "15 kB");
    assert_eq!(t.tx_packets, 60);
    assert_eq!(t.tx_bytes_display, "9 kB");
    assert_eq!(t.rx_packets, 40);
    assert_eq!(t.rx_bytes_display, "6 kB");
    assert!(parse_endpoint_line("fe80 1 2 bytes").is_none());
    assert!(parse_endpoint_line("10.0.0.1 1").is_none());
}

#[test]
fn endpoints_and_limit() {
    let out = "====\nIPv4 Endpoints\nFilter:<No Filter>\n| Packets |\n10.0.0.1 5 300 bytes 3 180 bytes 2 120 bytes\n10.0.0.2 2 120 bytes 1 60 bytes 1 60 bytes\n10.0.0.3 1 60 bytes 1 60 bytes 0 0 bytes\n";
    let mut talkers = parse_endpoints(out);
    assert_eq!(talkers.len(), 3);
    assert_eq!(talkers[1].address, "10.0.0.2");
    truncate_talkers(&mut talkers, 2);
    assert_eq!(talkers.len(), 2);
    assert_eq!(talkers[0].bytes_raw, 300);
}

#[test]
fn summary_lines_for_web() {
    let capinfos = "File name:   a.pcap\nNumber of packets:   5\n\n";
    let phs = "===\nProtocol Hierarchy Statistics\nFilter: \n\neth  frames:5 bytes:300\n  ip  frames:5 bytes:300\n===\n";
    let lines = get_summary_lines("a.pcap", capinfos, phs);
    assert_eq!(
        lines,
        vec![
            "=== a.pcap ===",
            "  File name:   a.pcap",
            "  Number of packets:   5",
            "",
            "  Protocol Hierarchy:",
            "    Filter:",
            "    eth  frames:5 bytes:300",
            "    ip  frames:5 bytes:300",
        ]
    );
}

#[test]
fn summary_rows_and_key_values() {
    assert_eq!(report_rows("  a \n\n b"), vec!["a".to_string(), "b".to_string()]);
    assert_eq!(protocol_hierarchy_rows("x\n= y\n"), Vec::<String>::new());
    assert_eq!(split_key_value("Packets : 5 "), Some(("Packets".to_string(), "5".to_string())));
    assert_eq!(split_key_value("a: b: c"), Some(("a".to_string(), "b: c".to_string())));
    assert_eq!(split_key_value("no colon"), None);
}

#[test]
fn exported_conversation_names() {
    assert_eq!(flow_file_name("capture", "TCP", 3), "capture_tcp_3_flow.pcap");
    assert_eq!(flow_file_name("c", "IPv4", 12), "c_ipv4_12_flow.pcap");
    assert_eq!(flow_name_from("c", "udp", 1), "c_udp_1_flow.pcap");
    assert_eq!(export_position(1, 3), Ok(0));
    assert_eq!(export_position(3, 3), Ok(2));
    assert_eq!(export_position(0, 3), Err("Invalid conversation index 0. Valid range: 1-3".to_string()));
    assert_eq!(export_position(4, 3), Err("Invalid conversation index 4. Valid range: 1-3".to_string()));
}

fn chars(s: &str) -> Vec<char> {
    s.chars().collect()
}

#[test]
fn byte_values_are_read_as_doubles() {
    assert_eq!(convert_to_bytes(&chars("4.1"), &chars("MB")), 4_099_999);
    assert_eq!(convert_to_bytes(&chars("2.01"), &chars("kB")), 2009);
    assert_eq!(convert_to_bytes(&chars("8.2"), &chars("GB")), 8_199_999_999);
    assert_eq!(convert_to_bytes(&chars("4.35"), &chars("TB")), 4_349_999_999_999);
    assert_eq!(convert_to_bytes(&chars("1,005"), &chars("kB")), 1004);
    assert_eq!(convert_to_bytes(&chars("2.3"), &chars("kB")), 2300);
    assert_eq!(convert_to_bytes(&chars("9007199254740993"), &chars("bytes")), 9_007_199_254_740_992);
    assert_eq!(convert_to_bytes(&chars("1e300"), &chars("bytes")), u64::MAX);
    assert_eq!(convert_to_bytes(&chars("18446744073709551615"), &chars("bytes")), u64::MAX);
    assert_eq!(convert_to_bytes(&chars("1e-300"), &chars("TB")), 0);
    assert_eq!(convert_to_bytes(&chars("0.0000000000001"), &chars("TB")), 0);
    assert_eq!(convert_to_bytes(&chars("0.5e-9"), &chars("TB")), 500);
    assert_eq!(convert_to_bytes(&chars("-5"), &chars("kB")), 0);
    assert_eq!(convert_to_bytes(&chars("NaN"), &chars("kB")), 0);
    assert_eq!(convert_to_bytes(&chars("inf"), &chars("bytes")), u64::MAX);
    assert_eq!(convert_to_bytes(&chars("abc"), &chars("kB")), 0);
}

#[test]
fn conversation_counts_are_read_as_doubles() {
    let c = parse_conversation_line(
        "10.0.0.1:1 <-> 10.0.0.2:2 9007199254740993 4.1 MB 4 8.2 MB 7 12.3 MB 0.0 1.0",
        "TCP",
    )
    .unwrap();
    assert_eq!(c.packets_a_to_b, 9_007_199_254_740_992);
    assert_eq!(c.bytes_a_to_b, 4_099_999);
    assert_eq!(c.packets_b_to_a, 4);
    assert_eq!(c.bytes_b_to_a, 8_199_999);
    assert_eq!(c.bytes_total, 12_300_000);
}

#[test]
fn endpoint_counts_are_read_as_doubles() {
    let t = parse_endpoint_line("10.0.0.1 5 4.1 MB").unwrap();
    assert_eq!(t.bytes_raw, 4_099_999);
    let t = parse_endpoint_line("10.0.0.1 9007199254740993 bytes").unwrap();
    assert_eq!(t.bytes_raw, 9_007_199_254_740_992);
    assert_eq!(t.bytes_display, "9007199254740993 bytes");
    let t = parse_endpoint_line("10.0.0.1 123456789012345679 kB").unwrap();
    assert_eq!(t.bytes_raw, u64::MAX);
}
