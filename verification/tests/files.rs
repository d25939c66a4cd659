use dpetoolbox::convert::{convert_error, convert_input, convert_output_dir, converted_name, is_etl_name, ConvertInput};
use dpetoolbox::download::{extract_filename, job_filename, parse_job_urls, parse_urls, unique_filenames, unique_name};
use dpetoolbox::filter::{
    count_from_capture, filtered_name, is_pcap_name, packet_count, should_delete, tshark_filter_args, FilterStats,
};
use dpetoolbox::merge::{group_files_by_ip, merged_name, mergecap_args};

fn strings(v: &[&str]) -> Vec<String> {
    v.iter().map(|s| s.to_string()).collect()
}

#[test]
fn url_lists() {
    let content = "# list\n  https://a/x/f1.pcap?sv=1  \nftp://nothing\nsee http://b/y/f2\n\n";
    assert_eq!(parse_urls(content), strings(&["https://a/x/f1.pcap?sv=1", "see http://b/y/f2"]));
    assert_eq!(parse_job_urls(content), strings(&["https://a/x/f1.pcap?sv=1"]));
    assert!(parse_urls("").is_empty());
}

#[test]
fn file_names_from_urls() {
    assert_eq!(extract_filename("https://acct.blob.core.windows.net/c/cap%2F01.pcap?sv=2020&sig=x"), "cap_01.pcap");
    assert_eq!(extract_filename("https://h/c/dir/"), "dir");
    assert_eq!(extract_filename("///"), "unknown_file");
    assert_eq!(job_filename("https://h/c/a.pcap?sig=1"), "a.pcap");
    assert_eq!(job_filename("https://h/c/"), "");
}

#[test]
fn duplicate_names_get_counters() {
    let urls = strings(&["https://x/c/a.pcap?sig=1", "https://x/c/a.pcap?sig=2", "https://x/d/a.pcap", "https://x/e/b"]);
    assert_eq!(unique_filenames(&urls), strings(&["a.pcap", "a_1.pcap", "a_2.pcap", "b"]));
    let taken: Vec<Vec<char>> = vec!["b".chars().collect(), "b_1".chars().collect()];
    let n: String = unique_name(&"b".chars().collect(), &taken).into_iter().collect();
    assert_eq!(n, "b_2");
    let fresh: String = unique_name(&"c.txt".chars().collect(), &taken).into_iter().collect();
    assert_eq!(fresh, "c.txt");
}

#[test]
fn unique_names_are_distinct() {
    let urls = strings(&["h://a/x", "h://b/x", "h://c/x_1", "h://d/x", "h://e/x_1"]);
    let names = unique_filenames(&urls);
    for i in 0..names.len() {
        for j in (i + 1)..names.len() {
            assert_ne!(names[i], names[j]);
        }
    }
}

#[test]
fn ip_from_capture_names() {
    let ip_of = |name: &str| group_files_by_ip(&strings(&[name])).map(|g| g[0].ip.clone());
    assert_eq!(ip_of("capture_10.0.0.1.pcap"), Some("10.0.0.1".to_string()));
    assert_eq!(ip_of("a_b_192.168.100.254.pcap"), Some("192.168.100.254".to_string()));
    assert_eq!(ip_of("capture_10.0.0.1.pcapng"), None);
    assert_eq!(ip_of("capture-10.0.0.1.pcap"), None);
    assert_eq!(ip_of("x_1.2.3.pcap"), None);
}

#[test]
fn grouping_by_address() {
    let names = strings(&["b_10.0.0.2.pcap", "a_10.0.0.1.pcap", "c_10.0.0.2.pcap", "other.pcap"]);
    let groups = group_files_by_ip(&names).unwrap();
    assert_eq!(groups.len(), 2);
    assert_eq!(groups[0].ip, "10.0.0.1");
    assert_eq!(groups[0].files, vec![1]);
    assert_eq!(groups[1].ip, "10.0.0.2");
    assert_eq!(groups[1].files, vec![0, 2]);
    assert!(group_files_by_ip(&strings(&["x.pcap", "y.pcap"])).is_none());
    assert!(group_files_by_ip(&Vec::new()).is_none());
}

#[test]
fn grouping_sorts_as_text() {
    let names = strings(&["a_9.0.0.1.pcap", "b_10.0.0.1.pcap"]);
    let groups = group_files_by_ip(&names).unwrap();
    assert_eq!(groups[0].ip, "10.0.0.1");
    assert_eq!(groups[1].ip, "9.0.0.1");
}

#[test]
fn mergecap_invocation() {
    assert_eq!(merged_name("10.0.0.1"), "10.0.0.1_merged.pcap");
    assert_eq!(
        mergecap_args("out/10.0.0.1_merged.pcap", &strings(&["a.pcap", "b.pcap"])),
        strings(&["-w", "out/10.0.0.1_merged.pcap", "a.pcap", "b.pcap"])
    );
}

#[test]
fn packet_counts() {
    assert_eq!(packet_count("File name: x\nNumber of packets:   1234\n"), 1234);
    assert_eq!(packet_count("Number of packets: 0"), 0);
    assert_eq!(packet_count("nothing here"), 0);
    assert_eq!(packet_count("Number of packets: 99999999999999999999999"), 0);
    assert_eq!(count_from_capture(Some("42")), 42);
    assert_eq!(count_from_capture(Some("4x")), 0);
    assert_eq!(count_from_capture(None), 0);
}

#[test]
fn filter_names_and_arguments() {
    assert!(is_pcap_name("a.pcap"));
    assert!(is_pcap_name("B.PCAP"));
    assert!(is_pcap_name("c.PcAp"));
    assert!(!is_pcap_name("d.pcapng"));
    assert!(!is_pcap_name(".pcap"));
    assert!(!is_pcap_name("pcap"));
    assert_eq!(filtered_name("trace.v1.pcap"), "trace.v1_filtered.pcap");
    assert_eq!(filtered_name("noext"), "noext_filtered.pcap");
    assert_eq!(
        tshark_filter_args("in.pcap", "tcp.port == 443", "out.pcap"),
        strings(&[
            "-d", "udp.port==65330,vxlan", "-d", "udp.port==65530,vxlan", "-d", "udp.port==10000,vxlan",
            "-d", "udp.port==20000,vxlan", "-r", "in.pcap", "-Y", "tcp.port == 443", "-w", "out.pcap",
        ])
    );
    assert!(should_delete(0, true));
    assert!(!should_delete(0, false));
    assert!(!should_delete(3, true));
}

#[test]
fn filter_tally() {
    let mut s = FilterStats::new();
    s.record_output(10, false);
    s.record_output(0, true);
    s.record_output(0, false);
    s.record_failure();
    assert_eq!(s.processed, 3);
    assert_eq!(s.with_packets, 1);
    assert_eq!(s.empty, 2);
    assert_eq!(s.deleted, 1);
    assert_eq!(s.failed, 1);
    assert_eq!(s.processed, s.with_packets + s.empty);
}

#[test]
fn conversion_names_and_inputs() {
    assert!(is_etl_name("trace.etl"));
    assert!(is_etl_name("TRACE.ETL"));
    assert!(!is_etl_name("trace.etl.bak"));
    assert_eq!(converted_name("net.trace.etl"), "net.trace.pcap");
    assert!(matches!(convert_input(Some("dir"), Some("f.etl")), ConvertInput::Single(f) if f == "f.etl"));
    assert!(matches!(convert_input(Some("dir"), Some("  ")), ConvertInput::Directory(d) if d == "dir"));
    assert!(matches!(convert_input(Some(" "), None), ConvertInput::Missing));
    let single = ConvertInput::Single("C:\\t\\f.etl".to_string());
    assert_eq!(convert_output_dir(Some("out"), &single, Some("C:\\t")), "out");
    assert_eq!(convert_output_dir(Some(""), &single, Some("C:\\t")), "C:\\t");
    assert_eq!(convert_output_dir(None, &single, None), ".");
    assert_eq!(convert_output_dir(None, &ConvertInput::Directory("d".into()), None), "d");
    assert_eq!(convert_output_dir(None, &ConvertInput::Missing, None), ".");
}

#[test]
fn conversion_error_text() {
    assert_eq!(convert_error("bad input\nmore", "x"), "bad input");
    assert_eq!(convert_error("", "line1\nline2\r\n"), "line2");
    assert_eq!(convert_error("", ""), "No output file created");
    assert_eq!(convert_error("\n", ""), "");
}

#[test]
fn file_names_are_never_empty_nor_hold_separators() {
    for url in ["", "?", "///", "https://h/c/f.pcap/", "https://h/c/%2%2FF?x=/y", "a?b/c", "https://h/c/%2F%2F"] {
        let f = extract_filename(url);
        assert!(!f.is_empty());
        assert!(!f.contains('/'));
        assert!(!f.contains('?'));
        assert!(!f.contains("%2F"));
    }
    assert_eq!(extract_filename(""), "unknown_file");
    assert_eq!(extract_filename("https://h/c/f.pcap/"), "f.pcap");
    assert_eq!(extract_filename("https://h/c/%2%2FF?x=/y"), "%2_F");
    assert_eq!(extract_filename("https://h/c/%2F%2F"), "__");
}
