use std::collections::HashMap;
use synapse::diff::{compute_diff, now_timestamp, DiffResult, HostSnapshot, PortChange, ScanSnapshot};
use synapse::report::{
    excluded_line, host_status_line, live_count_line, port_table_head, start_line,
    clip, complexity_note, diff_lines, has_cap_net_raw, has_raw_socket_privileges, history_limit,
    history_row, host_display, is_effective_root, latest_snapshot, snapshot_name_matches, needs_raw_tcp, port_row,
    print_cap_net_raw_hint, render_history, report_path, rule_line, sanitize, scan_type_label,
    scan_type_name, snapshot_file_name, sorted_statuses, status_counts, summary_line, SavedScanRow,
    ScanType,
};
use synapse::scanner::PortStatus;

fn host(ip: &str, ports: &[(u16, &str)]) -> HostSnapshot {
    let mut m = HashMap::new();
    for (p, s) in ports {
        m.insert(*p, s.to_string());
    }
    HostSnapshot { ip: ip.to_string(), hostname: ip.to_string(), ports: m }
}

fn snap(hosts: Vec<HostSnapshot>) -> ScanSnapshot {
    ScanSnapshot { target: "10.0.0.0/24".to_string(), timestamp: 1700000000, hosts }
}

fn change(ip: &str, port: u16, from: &str, to: &str) -> (String, u16, String, String) {
    (ip.to_string(), port, from.to_string(), to.to_string())
}

fn changes(d: &DiffResult) -> Vec<(String, u16, String, String)> {
    d.port_changes.iter().map(|c: &PortChange| (c.ip.clone(), c.port, c.from.clone(), c.to.clone())).collect()
}

#[test]
fn diff_finds_new_lost_and_changed() {
    let old = snap(vec![host("10.0.0.1", &[(80, "Open"), (22, "Open")]), host("10.0.0.2", &[(80, "Open")])]);
    let new = snap(vec![
        host("10.0.0.3", &[(80, "Open")]),
        host("10.0.0.1", &[(80, "Closed"), (443, "Open"), (22, "Open")]),
    ]);
    let d = compute_diff(&old, &new);
    assert_eq!(d.new_hosts, vec!["10.0.0.3".to_string()]);
    assert_eq!(d.lost_hosts, vec!["10.0.0.2".to_string()]);
    assert_eq!(
        changes(&d),
        vec![change("10.0.0.1", 80, "Open", "Closed"), change("10.0.0.1", 443, "absent", "Open")]
    );
}

#[test]
fn diff_reports_ports_that_vanished() {
    let old = snap(vec![host("h", &[(8080, "Filtered"), (21, "Closed")])]);
    let new = snap(vec![host("h", &[])]);
    let d = compute_diff(&old, &new);
    assert_eq!(changes(&d), vec![change("h", 21, "Closed", "absent"), change("h", 8080, "Filtered", "absent")]);
}

#[test]
fn diff_with_itself_is_empty() {
    let s = snap(vec![host("10.0.0.1", &[(80, "Open")]), host("10.0.0.2", &[(443, "Closed")])]);
    let d = compute_diff(&s, &s);
    assert!(d.new_hosts.is_empty());
    assert!(d.lost_hosts.is_empty());
    assert!(d.port_changes.is_empty());
}

#[test]
fn diff_reversed_swaps_new_and_lost() {
    let a = snap(vec![host("1", &[]), host("2", &[])]);
    let b = snap(vec![host("2", &[]), host("3", &[]), host("4", &[])]);
    let ab = compute_diff(&a, &b);
    let ba = compute_diff(&b, &a);
    assert_eq!(ab.new_hosts, ba.lost_hosts);
    assert_eq!(ab.lost_hosts, ba.new_hosts);
    assert_eq!(ab.new_hosts, vec!["3".to_string(), "4".to_string()]);
}

#[test]
fn new_hosts_are_exactly_those_absent_before() {
    let a = snap(vec![host("1", &[])]);
    let b = snap(vec![host("1", &[]), host("5", &[])]);
    let d = compute_diff(&a, &b);
    assert!(d.new_hosts.contains(&"5".to_string()));
    assert!(!d.new_hosts.contains(&"1".to_string()));
}

#[test]
fn diff_of_empty_snapshots() {
    let d = compute_diff(&snap(vec![]), &snap(vec![]));
    assert!(d.new_hosts.is_empty() && d.lost_hosts.is_empty() && d.port_changes.is_empty());
}

#[test]
fn clock_reads_after_2020() {
    assert!(now_timestamp() > 1_577_836_800);
}

#[test]
fn scan_type_names() {
    assert_eq!(scan_type_label(ScanType::Connect), "connect");
    assert_eq!(scan_type_label(ScanType::Xmas), "xmas");
    assert_eq!(scan_type_label(ScanType::Udp), "udp");
    assert_eq!(scan_type_name(ScanType::Syn), "Syn");
    assert!(needs_raw_tcp(ScanType::Ack));
    assert!(!needs_raw_tcp(ScanType::Connect));
    assert!(!needs_raw_tcp(ScanType::Udp));
}

#[test]
fn history_limit_is_clamped() {
    assert_eq!(history_limit(0), 1);
    assert_eq!(history_limit(10), 10);
    assert_eq!(history_limit(200), 200);
    assert_eq!(history_limit(5000), 200);
}

#[test]
fn clip_cuts_long_text() {
    assert_eq!(clip("abcdefghij", 5), "ab...");
    assert_eq!(clip("abc", 5), "abc");
    assert_eq!(clip("abcde", 5), "abcde");
    assert_eq!(clip("abcdef", 2), "...");
    assert_eq!(clip("ééééé", 4), "é...");
}

#[test]
fn sanitize_keeps_alphanumerics_dots_and_dashes() {
    assert_eq!(sanitize("10.0.0.0/24"), "10.0.0.0_24");
    assert_eq!(sanitize("my host-1:80"), "my_host-1_80");
    assert_eq!(sanitize("ünï"), "ünï");
    assert_eq!(sanitize(""), "");
}

#[test]
fn file_names() {
    assert_eq!(snapshot_file_name("10.0.0.0/24", 1700000000), "synapse_10.0.0.0_24_1700000000.json");
    assert_eq!(report_path("a b", 5), "results/synapse_a_b_5.txt");
}

#[test]
fn snapshot_names_match_only_their_own_target() {
    assert!(snapshot_name_matches("synapse_host_100.json", "host"));
    assert!(!snapshot_name_matches("synapse_host_300.txt", "host"));
    assert!(!snapshot_name_matches("synapse_host_.json", "host"));
    assert!(!snapshot_name_matches("synapse_host_x.json", "host"));
    assert!(!snapshot_name_matches("synapse_other_900.json", "host"));
    assert!(!snapshot_name_matches("synapse_-__5.json", "-"));
    assert!(snapshot_name_matches("synapse_-__5.json", "-_"));
    assert!(!snapshot_name_matches("synapse_10.0.0.1_24_5.json", "10.0.0.1"));
    assert!(snapshot_name_matches("synapse_10.0.0.1_24_5.json", "10.0.0.1/24"));
}

#[test]
fn latest_snapshot_is_the_latest_of_the_same_target() {
    let mk = |t: &str, ts: u64| ScanSnapshot { target: t.to_string(), timestamp: ts, hosts: vec![] };
    let snaps = vec![mk("host", 99), mk("host", 100), mk("a/b", 500), mk("a:b", 400), mk("host", 7)];
    assert_eq!(latest_snapshot(&snaps, "host"), Some(1));
    assert_eq!(latest_snapshot(&snaps, "a:b"), Some(3));
    assert_eq!(latest_snapshot(&snaps, "a/b"), Some(2));
    assert_eq!(latest_snapshot(&snaps, "none"), None);
    assert_eq!(latest_snapshot(&vec![], "host"), None);
    let ties = vec![mk("t", 5), mk("t", 5)];
    assert_eq!(latest_snapshot(&ties, "t"), Some(1));
}

#[test]
fn root_is_the_effective_uid_of_the_uid_line() {
    assert!(is_effective_root("Name:\tsynapse\nUid:\t1000\t0\t0\t0\n"));
    assert!(!is_effective_root("Name:\tx\nUid:\t0\t1000\t0\t0\n"));
    assert!(is_effective_root("Uid:\t0\t0\t0\t0\n"));
    assert!(!is_effective_root("Name:\tx\n"));
    assert!(!is_effective_root("Uid: 0\nUid: 5 0\n"));
    assert!(is_effective_root("Uid:\nUid: 5 0\n"));
    assert!(has_raw_socket_privileges("Uid:\t1\t0"));
}

#[test]
fn cap_net_raw_is_bit_13_of_cap_eff() {
    assert!(has_cap_net_raw("CapInh:\t0\nCapEff:\t0000000000002000\n"));
    assert!(has_cap_net_raw("CapEff:\t000001ffffffffff\n"));
    assert!(!has_cap_net_raw("CapEff:\t0000000000001000\n"));
    assert!(!has_cap_net_raw("CapEff:\tzz\n"));
    assert!(!has_cap_net_raw("CapPrm:\t2000\n"));
    assert!(has_cap_net_raw("CapEff: 2000\n"));
}

#[test]
fn raw_privileges_from_either_source() {
    assert!(has_raw_socket_privileges("Uid:\t0\t0\t0\t0\nCapEff:\t0\n"));
    assert!(has_raw_socket_privileges("Uid:\t1000\t1000\t1000\t1000\nCapEff:\t2000\n"));
    assert!(!has_raw_socket_privileges("Uid:\t1000\t1000\t1000\t1000\nCapEff:\t0\n"));
    assert!(!has_raw_socket_privileges(""));
}

#[test]
fn cap_hint_lines() {
    let l = print_cap_net_raw_hint(Some("/opt/bin/synapse"));
    assert_eq!(l, vec!["Grant capability once with:".to_string(), "  sudo setcap cap_net_raw+ep /opt/bin/synapse".to_string()]);
    let d = print_cap_net_raw_hint(None);
    assert_eq!(d[1], "  sudo setcap cap_net_raw+ep /usr/local/bin/synapse");
}

#[test]
fn host_names_in_reports() {
    assert_eq!(host_display("10.0.0.1", "10.0.0.1"), "10.0.0.1");
    assert_eq!(host_display("router.lan", "10.0.0.1"), "router.lan (10.0.0.1)");
}

#[test]
fn port_table_rows() {
    assert_eq!(port_row(80, PortStatus::Open, "http", None), "  80/tcp    Open         http");
    assert_eq!(
        port_row(443, PortStatus::OpenFiltered, "https", Some("HTTP 200")),
        "  443/tcp   OpenFiltered https          HTTP 200"
    );
    assert_eq!(port_row(65535, PortStatus::Closed, "unknown", None), "  65535/tcp Closed       unknown");
}

#[test]
fn statuses_in_port_order_with_counts() {
    let mut m = HashMap::new();
    m.insert(443u16, PortStatus::Closed);
    m.insert(22u16, PortStatus::Open);
    m.insert(80u16, PortStatus::Open);
    m.insert(0u16, PortStatus::Filtered);
    m.insert(65535u16, PortStatus::OpenFiltered);
    let v = sorted_statuses(&m);
    assert_eq!(
        v,
        vec![
            (0, PortStatus::Filtered),
            (22, PortStatus::Open),
            (80, PortStatus::Open),
            (443, PortStatus::Closed),
            (65535, PortStatus::OpenFiltered)
        ]
    );
    assert_eq!(status_counts(&v), (2, 1, 1, 1));
    assert_eq!(summary_line(5, status_counts(&v)), "  5/5 ports — 2 open, 1 closed, 1 filtered, 1 open|filtered");
}

#[test]
fn diff_section_lines() {
    let empty = DiffResult { new_hosts: vec![], lost_hosts: vec![], port_changes: vec![] };
    assert_eq!(diff_lines(&empty, "x"), vec!["\nDiff: no changes since last scan".to_string()]);
    let d = DiffResult {
        new_hosts: vec!["10.0.0.9".to_string()],
        lost_hosts: vec!["10.0.0.2".to_string()],
        port_changes: vec![PortChange { ip: "10.0.0.1".to_string(), port: 80, from: "Open".to_string(), to: "Closed".to_string() }],
    };
    assert_eq!(
        diff_lines(&d, "2023-11-14 22:13"),
        vec![
            "\nDiff vs scan from 2023-11-14 22:13".to_string(),
            "  [NEW HOST]  10.0.0.9".to_string(),
            "  [GONE]      10.0.0.2".to_string(),
            "  [CHANGED]   10.0.0.1:80 Open → Closed".to_string(),
        ]
    );
}

#[test]
fn complexity_notes() {
    assert_eq!(
        complexity_note(ScanType::Connect, 20, 1000),
        "O(H × timeout)  [T≥P: all 20 ports fit in one async batch]"
    );
    assert_eq!(
        complexity_note(ScanType::Connect, 1000, 300),
        "O(H × ⌈P/T⌉ × timeout)  [⌈1000/300⌉=4 batches per host]"
    );
    assert_eq!(
        complexity_note(ScanType::Udp, 600, 300),
        "O(H × ⌈P/T⌉ × timeout)  [⌈600/300⌉=2 batches per host, UDP]"
    );
    assert_eq!(
        complexity_note(ScanType::Udp, 1, 1),
        "O(H × timeout)  [T≥P: all 1 ports fit in one async batch, UDP]"
    );
    assert_eq!(
        complexity_note(ScanType::Syn, 1000, 1),
        "O(H × P × 5ms_delay + 5s_window)  [sequential raw blast + fixed listen window]"
    );
}

#[test]
fn rules() {
    assert_eq!(rule_line(3), "───");
    assert_eq!(rule_line(0), "");
    assert_eq!(rule_line(60).chars().count(), 60);
}

fn row(id: i64, target: &str, bench: bool, created_at: i64) -> SavedScanRow {
    SavedScanRow {
        id,
        target: target.to_string(),
        scan_type: "connect".to_string(),
        total_hosts: 256,
        live_hosts: 3,
        ports: 20,
        bench_enabled: bench,
        created_at,
    }
}

#[test]
fn history_rows() {
    assert_eq!(
        history_row(&row(7, "10.0.0.0/24", true, 1700000000)),
        "7      10.0.0.0/24          connect  256        3         20      yes     2023-11-14 22:13"
    );
    assert_eq!(
        history_row(&row(-1, "a-very-long-target-name.example.com", false, 0)),
        "-1     a-very-long-targe... connect  256        3         20      no      1970-01-01 00:00"
    );
}

#[test]
fn history_listing() {
    assert_eq!(render_history(&vec![], "results/synapse.db"), vec!["No saved scans found in results/synapse.db".to_string()]);
    let lines = render_history(&vec![row(1, "t", false, 0), row(2, "u", true, 86400)], "db");
    assert_eq!(lines.len(), 6);
    assert_eq!(lines[0], "Saved Scan History (db)");
    assert_eq!(lines[1], "ID     TARGET               TYPE     HOSTS      LIVE      PORTS   BENCH   WHEN");
    assert_eq!(lines[2], "─".repeat(90));
    assert!(lines[3].starts_with("1      t "));
    assert!(lines[4].ends_with("yes     1970-01-02 00:00"));
    assert_eq!(lines[5], "\nUse --history-raw-id <ID> to print raw output for one saved scan.");
}

#[test]
fn readme_report_lines() {
    assert_eq!(
        start_line(ScanType::Connect, 1, 20, 500, 1000),
        "Starting synapse (Connect scan) against 1 host(s), 20 ports | timeout: 500ms | threads: 1000"
    );
    assert_eq!(host_status_line(true, "example.com (93.184.216.34)"), "  [UP  ]  example.com (93.184.216.34)");
    assert_eq!(host_status_line(false, "10.0.0.3"), "  [DOWN]  10.0.0.3");
    assert_eq!(live_count_line(1), "\n1 live host(s) to scan");
    assert_eq!(
        summary_line(20, (2, 15, 3, 0)),
        "  20/20 ports — 2 open, 15 closed, 3 filtered, 0 open|filtered"
    );
    assert_eq!(port_table_head(false), vec!["  PORT      STATE        SERVICE".to_string(), format!("  {}", "─".repeat(40))]);
    assert_eq!(
        port_table_head(true),
        vec!["  PORT      STATE        SERVICE        INFO".to_string(), format!("  {}", "─".repeat(60))]
    );
    assert_eq!(port_row(8080, PortStatus::Open, "http-proxy", None), "  8080/tcp  Open         http-proxy");
}

#[test]
fn excluded_servers_line() {
    assert_eq!(
        excluded_line(&vec!["8.8.8.8".to_string(), "1.1.1.1".to_string()]),
        "Excluded 2 sensitive DNS server(s): 8.8.8.8, 1.1.1.1"
    );
    assert_eq!(excluded_line(&vec!["9.9.9.9".to_string()]), "Excluded 1 sensitive DNS server(s): 9.9.9.9");
}

#[test]
fn a_saved_snapshot_is_found_again() {
    for target in ["10.0.0.0/24", "example.com", "a b:c", "", "-"] {
        let name = snapshot_file_name(target, 1234);
        assert!(snapshot_name_matches(&name, target));
        assert!(!snapshot_name_matches(&snapshot_file_name("zzz-other", 9999), target));
    }
}

#[test]
fn reported_changes_are_real() {
    let old = snap(vec![host("a", &[(1, "Open"), (2, "Closed"), (3, "Open")]), host("b", &[(9, "Open")])]);
    let new = snap(vec![host("a", &[(1, "Open"), (2, "Open"), (4, "Filtered")]), host("c", &[(9, "Closed")])]);
    let d = compute_diff(&old, &new);
    assert_eq!(d.port_changes.len(), 3);
    for c in &d.port_changes {
        assert_ne!(c.from, c.to);
        assert!(old.hosts.iter().any(|h| h.ip == c.ip));
        assert!(new.hosts.iter().any(|h| h.ip == c.ip));
    }
}

#[test]
fn reversed_diff_swaps_the_port_changes() {
    let a = snap(vec![host("1", &[(1, "Open"), (2, "Closed")]), host("2", &[(5, "Open")]), host("9", &[])]);
    let b = snap(vec![host("2", &[(5, "Closed"), (6, "Open")]), host("1", &[(2, "Open")]), host("3", &[])]);
    let ab = changes(&compute_diff(&a, &b));
    let ba = changes(&compute_diff(&b, &a));
    assert_eq!(ab.len(), ba.len());
    for (ip, port, from, to) in &ab {
        assert!(ba.contains(&(ip.clone(), *port, to.clone(), from.clone())));
    }
    assert_eq!(ab.len(), 4);
}
