use nf_conntrack_hello::address::{parse_ipv4, print_ip};
use nf_conntrack_hello::conntrack::{
    admit_address, classify, parse_conntrack_output, process_conntrack_line, MAX_SERVER_BYTES,
    MIN_CLIENT_BYTES,
};
use nf_conntrack_hello::cycle::{join_addresses, poll_cycle, publish_request, report_line};
use std::collections::HashSet;

const EXAMPLE: &str = "ipv4 2 tcp 6 117 ESTABLISHED src=10.0.0.5 dst=93.184.216.34 sport=51000 dport=443 packets=12 bytes=600 src=93.184.216.34 dst=10.0.0.5 sport=443 dport=51000 packets=3 bytes=150";

fn ip(a: u32, b: u32, c: u32, d: u32) -> u32 {
    (a << 24) | (b << 16) | (c << 8) | d
}

fn line_with(dst: &str, c2s: &str, s2c: &str) -> String {
    format!(
        "ipv4 2 tcp 6 117 ESTABLISHED src=10.0.0.5 dst={} sport=51000 dport=443 packets=12 bytes={} src={} dst=10.0.0.5 sport=443 dport=51000 packets=3 bytes={}",
        dst, c2s, dst, s2c
    )
}

#[test]
fn example_line_parses() {
    assert_eq!(
        parse_conntrack_output(EXAMPLE),
        Some((ip(93, 184, 216, 34), 600, 150))
    );
}

#[test]
fn example_line_reported_once() {
    let mut reported = HashSet::new();
    let first = process_conntrack_line(EXAMPLE, &mut reported);
    assert_eq!(first, Some(("93.184.216.34".to_string(), 600, 150)));
    assert!(reported.contains(&ip(93, 184, 216, 34)));
    assert_eq!(process_conntrack_line(EXAMPLE, &mut reported), None);
    assert_eq!(reported.len(), 1);
}

#[test]
fn example_report_line() {
    assert_eq!(
        report_line("93.184.216.34", 600, 150, "blocked"),
        "93.184.216.34 (c2s=600B s2c=150B) -> queued for nft set blocked"
    );
}

#[test]
fn example_across_cycles() {
    let mut reported = HashSet::new();
    let table = vec![EXAMPLE.to_string()];
    let first = poll_cycle(&table, &mut reported);
    assert_eq!(
        first.matches,
        vec![("93.184.216.34".to_string(), 600, 150)]
    );
    assert_eq!(first.request, Some("{ 93.184.216.34 }".to_string()));
    let second = poll_cycle(&table, &mut reported);
    assert!(second.matches.is_empty());
    assert_eq!(second.request, None);
}

#[test]
fn thresholds_are_inclusive() {
    assert_eq!(MIN_CLIENT_BYTES, 500);
    assert_eq!(MAX_SERVER_BYTES, 200);
    assert!(classify(500, 200));
    assert!(!classify(499, 200));
    assert!(!classify(500, 201));
    assert!(classify(u64::MAX, 0));
}

#[test]
fn boundary_lines_classify() {
    let mut reported = HashSet::new();
    let hit = line_with("1.1.1.1", "500", "200");
    assert_eq!(
        process_conntrack_line(&hit, &mut reported),
        Some(("1.1.1.1".to_string(), 500, 200))
    );
    let low = line_with("2.2.2.2", "499", "200");
    assert_eq!(process_conntrack_line(&low, &mut reported), None);
    let high = line_with("3.3.3.3", "500", "201");
    assert_eq!(process_conntrack_line(&high, &mut reported), None);
    assert_eq!(reported.len(), 1);
}

#[test]
fn first_and_last_byte_counts() {
    let line = "ipv4 2 tcp 6 117 dst=8.8.8.8 dport=443 bytes=x bytes=700 bytes=5 bytes=-1 bytes=90 bytes=";
    assert_eq!(parse_conntrack_output(line), Some((ip(8, 8, 8, 8), 700, 90)));
}

#[test]
fn single_byte_count_serves_both() {
    let line = "tcp dst=8.8.4.4 dport=443 bytes=321";
    assert_eq!(parse_conntrack_output(line), Some((ip(8, 8, 4, 4), 321, 321)));
}

#[test]
fn byte_count_limits() {
    let line = "tcp dst=1.2.3.4 dport=443 bytes=18446744073709551615 bytes=18446744073709551616";
    assert_eq!(
        parse_conntrack_output(line),
        Some((ip(1, 2, 3, 4), u64::MAX, u64::MAX))
    );
    let plus = "tcp dst=1.2.3.4 dport=443 bytes=+12 bytes=007";
    assert_eq!(parse_conntrack_output(plus), Some((ip(1, 2, 3, 4), 12, 7)));
}

#[test]
fn no_byte_count_no_record() {
    assert_eq!(parse_conntrack_output("tcp dst=1.2.3.4 dport=443"), None);
    assert_eq!(
        parse_conntrack_output("tcp dst=1.2.3.4 dport=443 bytes=abc"),
        None
    );
}

#[test]
fn marker_needs_port() {
    let line = EXAMPLE.replace("dport=443", "dport=8443x");
    assert!(!line.contains("dport=443"));
    assert_eq!(parse_conntrack_output(&line), None);
}

#[test]
fn marker_needs_tcp() {
    let line = EXAMPLE.replace("tcp", "udp");
    assert_eq!(parse_conntrack_output(&line), None);
}

#[test]
fn markers_are_textual() {
    let line = "ipv4 2 dst=5.6.7.8 note=xtcpx sport=1 xdport=4430 bytes=900 bytes=10";
    assert_eq!(parse_conntrack_output(line), Some((ip(5, 6, 7, 8), 900, 10)));
}

#[test]
fn out_of_range_dst_gives_no_record() {
    let line = line_with("999.1.1.1", "600", "150");
    assert_eq!(parse_conntrack_output(&line), None);
}

#[test]
fn short_dst_gives_no_record() {
    let line = line_with("1.2.3", "600", "150");
    assert_eq!(parse_conntrack_output(&line), None);
}

#[test]
fn only_first_dst_counts() {
    let line = "tcp dst=bad dport=443 dst=1.2.3.4 bytes=600 bytes=100";
    assert_eq!(parse_conntrack_output(line), None);
    let good = "tcp dst=4.3.2.1 dport=443 dst=1.2.3.4 bytes=600 bytes=100";
    assert_eq!(parse_conntrack_output(good), Some((ip(4, 3, 2, 1), 600, 100)));
}

#[test]
fn missing_dst_gives_no_record() {
    assert_eq!(
        parse_conntrack_output("tcp src=1.2.3.4 dport=443 bytes=600"),
        None
    );
}

#[test]
fn tokens_split_on_any_white_space() {
    let line = "tcp\tdst=9.9.9.9\u{3000}dport=443  bytes=800\u{a0}bytes=20\n";
    assert_eq!(parse_conntrack_output(line), Some((ip(9, 9, 9, 9), 800, 20)));
}

#[test]
fn key_splits_at_first_equals() {
    let line = "tcp dport=443 dst=1.2.3.4=5 bytes=600";
    assert_eq!(parse_conntrack_output(line), None);
    let eq_value = "tcp dport=443 dst=1.2.3.4 bytes==600 bytes=600";
    assert_eq!(
        parse_conntrack_output(eq_value),
        Some((ip(1, 2, 3, 4), 600, 600))
    );
}

#[test]
fn decode_accepts_four_octets() {
    assert_eq!(parse_ipv4("93.184.216.34"), Some(ip(93, 184, 216, 34)));
    assert_eq!(parse_ipv4("0.0.0.0"), Some(0));
    assert_eq!(parse_ipv4("255.255.255.255"), Some(u32::MAX));
    assert_eq!(parse_ipv4("010.0.0.1"), Some(ip(10, 0, 0, 1)));
}

#[test]
fn decode_rejects_other_shapes() {
    assert_eq!(parse_ipv4("999.1.1.1"), None);
    assert_eq!(parse_ipv4("256.0.0.1"), None);
    assert_eq!(parse_ipv4("1.2.3"), None);
    assert_eq!(parse_ipv4("1.2.3.4.5"), None);
    assert_eq!(parse_ipv4("1..2.3"), None);
    assert_eq!(parse_ipv4("1.2.3.4x"), None);
    assert_eq!(parse_ipv4("a.b.c.d"), None);
    assert_eq!(parse_ipv4("-1.2.3.4"), None);
    assert_eq!(parse_ipv4(""), None);
}

#[test]
fn encode_big_endian_octets() {
    assert_eq!(print_ip(0), "0.0.0.0");
    assert_eq!(print_ip(u32::MAX), "255.255.255.255");
    assert_eq!(print_ip(0x0A00_0005), "10.0.0.5");
    assert_eq!(print_ip(ip(93, 184, 216, 34)), "93.184.216.34");
}

#[test]
fn encode_then_decode() {
    for v in [0u32, 1, 0x0102_0304, 0x7F00_0001, 0xC0A8_0101, u32::MAX] {
        assert_eq!(parse_ipv4(&print_ip(v)), Some(v));
    }
}

#[test]
fn admit_only_once() {
    let mut reported = HashSet::new();
    assert!(admit_address(7, &mut reported));
    assert!(!admit_address(7, &mut reported));
    assert!(admit_address(8, &mut reported));
    assert_eq!(reported.len(), 2);
}

#[test]
fn publish_request_batches() {
    let items = vec!["1.2.3.4".to_string(), "5.6.7.8".to_string()];
    assert_eq!(join_addresses(&items), "1.2.3.4, 5.6.7.8");
    assert_eq!(
        publish_request(&items),
        Some("{ 1.2.3.4, 5.6.7.8 }".to_string())
    );
    assert_eq!(publish_request(&Vec::new()), None);
    assert_eq!(join_addresses(&Vec::new()), "");
}

#[test]
fn quiet_cycle_requests_nothing() {
    let mut reported = HashSet::new();
    let table = vec![
        line_with("1.1.1.1", "100", "50"),
        "ipv4 2 udp 17 30 src=1.1.1.1 dst=2.2.2.2 dport=443 bytes=900".to_string(),
        String::new(),
    ];
    let out = poll_cycle(&table, &mut reported);
    assert!(out.matches.is_empty());
    assert_eq!(out.request, None);
    assert!(reported.is_empty());
}

#[test]
fn cycles_report_each_address_once() {
    let mut reported = HashSet::new();
    let a = line_with("1.1.1.1", "600", "10");
    let b = line_with("2.2.2.2", "900", "0");
    let first = poll_cycle(&vec![a.clone(), a.clone(), b.clone()], &mut reported);
    assert_eq!(
        first.matches,
        vec![
            ("1.1.1.1".to_string(), 600, 10),
            ("2.2.2.2".to_string(), 900, 0)
        ]
    );
    assert_eq!(first.request, Some("{ 1.1.1.1, 2.2.2.2 }".to_string()));
    let c = line_with("3.3.3.3", "501", "199");
    let second = poll_cycle(&vec![b, c, a], &mut reported);
    assert_eq!(second.matches, vec![("3.3.3.3".to_string(), 501, 199)]);
    assert_eq!(second.request, Some("{ 3.3.3.3 }".to_string()));
    assert_eq!(reported.len(), 3);
}
