use synapse::ports::parse_ports;
use synapse::targets::{
    apply_exclusions, expand_networks, finish_targets, is_excluded, network_contains,
    parse_octet_part, parse_octet_range, plan_targets, select_resolved, sensitive_dns_exclusions,
    split_target, IpAddress, Network, TargetPlan,
};

fn v4(a: u32, b: u32, c: u32, d: u32) -> IpAddress {
    IpAddress::V4((a << 24) | (b << 16) | (c << 8) | d)
}

#[test]
fn ports_single_and_ranges_in_order() {
    assert_eq!(parse_ports("80"), Ok(vec![80]));
    assert_eq!(parse_ports("20-22,80"), Ok(vec![20, 21, 22, 80]));
    assert_eq!(parse_ports("443,22,443"), Ok(vec![443, 22, 443]));
    assert_eq!(parse_ports("65535"), Ok(vec![65535]));
    assert_eq!(parse_ports("7-7"), Ok(vec![7]));
}

#[test]
fn ports_accept_a_plus_sign_as_str_parse_does() {
    assert_eq!(parse_ports("+8"), Ok(vec![8]));
}

#[test]
fn ports_default_list_parses() {
    let r = parse_ports("80,23,443,21,22,25,3389,110,445,139,143,53,135,3306,8080,1723,111,995,993,5900")
        .unwrap();
    assert_eq!(r.len(), 20);
    assert_eq!(r[0], 80);
    assert_eq!(r[19], 5900);
}

#[test]
fn ports_errors_name_the_bad_piece() {
    assert_eq!(parse_ports("abc"), Err("Invalid single port: abc".to_string()));
    assert_eq!(parse_ports(""), Err("Invalid single port: ".to_string()));
    assert_eq!(parse_ports("1,,2"), Err("Invalid single port: ".to_string()));
    assert_eq!(parse_ports("65536"), Err("Invalid single port: 65536".to_string()));
    assert_eq!(parse_ports("x-5"), Err("Invalid start port: x".to_string()));
    assert_eq!(parse_ports("5-x"), Err("Invalid end port: x".to_string()));
    assert_eq!(parse_ports("9-3"), Err("Start port greater than end port: 9-3".to_string()));
    assert_eq!(parse_ports("1-2-3"), Err("Invalid end port: 2-3".to_string()));
}

#[test]
fn ports_first_error_wins() {
    assert_eq!(parse_ports("80,bad,9-1"), Err("Invalid single port: bad".to_string()));
}

#[test]
fn octet_part_lists_and_ranges() {
    assert_eq!(parse_octet_part("1,2,5-7"), Ok(vec![1, 2, 5, 6, 7]));
    assert_eq!(parse_octet_part("42"), Ok(vec![42]));
    let all = parse_octet_part("-").unwrap();
    assert_eq!(all.len(), 256);
    assert_eq!(all[0], 0);
    assert_eq!(all[255], 255);
    assert_eq!(parse_octet_part("250-"), Ok(vec![250, 251, 252, 253, 254, 255]));
    assert_eq!(parse_octet_part("-2"), Ok(vec![0, 1, 2]));
}

#[test]
fn octet_part_errors() {
    assert_eq!(parse_octet_part("300"), Err("Invalid octet: 300".to_string()));
    assert_eq!(parse_octet_part("5-1"), Err("Invalid range: 5-1".to_string()));
    assert_eq!(parse_octet_part("x-1"), Err("Bad start octet".to_string()));
    assert_eq!(parse_octet_part("1-x"), Err("Bad end octet".to_string()));
    assert_eq!(parse_octet_part("1-256"), Err("Bad end octet".to_string()));
}

#[test]
fn octet_range_expands_first_octet_outermost() {
    assert_eq!(
        parse_octet_range("10.0-1.0.1-2"),
        Ok(vec![v4(10, 0, 0, 1), v4(10, 0, 0, 2), v4(10, 1, 0, 1), v4(10, 1, 0, 2)])
    );
    assert_eq!(
        parse_octet_range("192.168.1.1-3"),
        Ok(vec![v4(192, 168, 1, 1), v4(192, 168, 1, 2), v4(192, 168, 1, 3)])
    );
    assert_eq!(parse_octet_range("10.0.0.1,9"), Ok(vec![v4(10, 0, 0, 1), v4(10, 0, 0, 9)]));
}

#[test]
fn octet_range_needs_four_fields() {
    let msg = "Octet ranges must have exactly 4 parts separated by dots".to_string();
    assert_eq!(parse_octet_range("1.2.3"), Err(msg.clone()));
    assert_eq!(parse_octet_range("1.2.3.4.5"), Err(msg));
    assert_eq!(parse_octet_range("1.2.x.4-5"), Err("Invalid octet: x".to_string()));
}

#[test]
fn split_target_reads_the_prefix() {
    assert_eq!(split_target("10.0.0.0/24"), Ok(("10.0.0.0".to_string(), Some(24))));
    assert_eq!(split_target("example.com"), Ok(("example.com".to_string(), None)));
    assert_eq!(split_target("a/x"), Err("Invalid CIDR number: x".to_string()));
    assert_eq!(split_target("a/300"), Err("Invalid CIDR number: 300".to_string()));
    assert_eq!(split_target("a/1/2"), Err("Invalid CIDR number: 1/2".to_string()));
}

#[test]
fn plan_targets_tells_ranges_from_hosts() {
    match plan_targets("10.0.0.1-2") {
        Ok(TargetPlan::Addresses(v)) => assert_eq!(v, vec![v4(10, 0, 0, 1), v4(10, 0, 0, 2)]),
        _ => panic!("expected addresses"),
    }
    match plan_targets("example.org/30") {
        Ok(TargetPlan::Lookup { host, prefix }) => {
            assert_eq!(host, "example.org");
            assert_eq!(prefix, Some(30));
        }
        _ => panic!("expected a lookup"),
    }
    match plan_targets("1.2.3") {
        Ok(TargetPlan::Lookup { host, prefix }) => {
            assert_eq!(host, "1.2.3");
            assert_eq!(prefix, None);
        }
        _ => panic!("expected a lookup"),
    }
    match plan_targets("1.2-300.3.4") {
        Err(e) => assert_eq!(e, "Bad end octet"),
        _ => panic!("expected an error"),
    }
}

#[test]
fn host_names_with_dashes_are_looked_up() {
    for name in ["my-host.example", "a-b", "x,y.example", "10.0.0.1-5.example", "1-2.3.4"] {
        match plan_targets(name) {
            Ok(TargetPlan::Lookup { host, prefix }) => {
                assert_eq!(host, name);
                assert_eq!(prefix, None);
            }
            _ => panic!("expected a lookup for {}", name),
        }
    }
    match plan_targets("my-host.example/24") {
        Ok(TargetPlan::Lookup { host, prefix }) => {
            assert_eq!(host, "my-host.example");
            assert_eq!(prefix, Some(24));
        }
        _ => panic!("expected a lookup"),
    }
    assert!(matches!(plan_targets("10,11.0.0.1"), Ok(TargetPlan::Addresses(_))));
}

#[test]
fn finish_targets_expands_the_network() {
    assert_eq!(
        finish_targets("h", &vec![v4(10, 0, 0, 5)], Some(30)),
        Ok(vec![v4(10, 0, 0, 4), v4(10, 0, 0, 5), v4(10, 0, 0, 6), v4(10, 0, 0, 7)])
    );
    assert_eq!(finish_targets("h", &vec![v4(10, 0, 0, 5)], None), Ok(vec![v4(10, 0, 0, 5)]));
}

#[test]
fn finish_targets_drops_repeated_networks() {
    assert_eq!(
        finish_targets("h", &vec![v4(10, 0, 0, 5), v4(10, 0, 0, 5)], None),
        Ok(vec![v4(10, 0, 0, 5)])
    );
}

#[test]
fn finish_targets_errors() {
    assert_eq!(finish_targets("nowhere", &vec![], None), Err("No IP addresses found for: nowhere".to_string()));
    assert_eq!(
        finish_targets("h", &vec![v4(1, 2, 3, 4)], Some(33)),
        Err("Invalid IPv4 prefix: /33".to_string())
    );
    assert_eq!(
        finish_targets("h", &vec![IpAddress::V6(1)], Some(129)),
        Err("Invalid IPv6 prefix: /129".to_string())
    );
}

#[test]
fn select_resolved_keeps_up_to_first_v4_with_prefix() {
    let addrs = vec![IpAddress::V6(1), v4(1, 1, 1, 1), v4(2, 2, 2, 2)];
    assert_eq!(select_resolved(&addrs, true), vec![IpAddress::V6(1), v4(1, 1, 1, 1)]);
    assert_eq!(select_resolved(&addrs, false), addrs);
    let only6 = vec![IpAddress::V6(1), IpAddress::V6(2)];
    assert_eq!(select_resolved(&only6, true), only6);
}

#[test]
fn network_membership() {
    let net = Network { addr: v4(10, 0, 0, 0), prefix: 8 };
    assert!(network_contains(&net, v4(10, 1, 2, 3)));
    assert!(!network_contains(&net, v4(11, 0, 0, 0)));
    assert!(!network_contains(&net, IpAddress::V6(0x0a00_0000)));
    let host = Network { addr: v4(10, 0, 0, 7), prefix: 32 };
    assert!(network_contains(&host, v4(10, 0, 0, 7)));
    assert!(!network_contains(&host, v4(10, 0, 0, 6)));
    let any6 = Network { addr: IpAddress::V6(5), prefix: 0 };
    assert!(network_contains(&any6, IpAddress::V6(u128::MAX)));
    let unmasked = Network { addr: v4(192, 168, 1, 77), prefix: 24 };
    assert!(network_contains(&unmasked, v4(192, 168, 1, 0)));
}

#[test]
fn expand_networks_starts_at_the_network_address() {
    let nets = vec![Network { addr: v4(10, 0, 0, 1), prefix: 31 }, Network { addr: IpAddress::V6(6), prefix: 127 }];
    assert_eq!(
        expand_networks(&nets),
        vec![v4(10, 0, 0, 0), v4(10, 0, 0, 1), IpAddress::V6(6), IpAddress::V6(7)]
    );
}

#[test]
fn sensitive_dns_servers_are_excluded() {
    let ex = sensitive_dns_exclusions();
    assert_eq!(ex.len(), 10);
    assert_eq!(ex[0], Network { addr: v4(1, 1, 1, 1), prefix: 32 });
    assert_eq!(ex[9], Network { addr: v4(64, 6, 65, 6), prefix: 32 });
    assert!(is_excluded(&ex, v4(8, 8, 8, 8)));
    assert!(is_excluded(&ex, v4(149, 112, 112, 112)));
    assert!(!is_excluded(&ex, v4(8, 8, 8, 9)));
    let kept = apply_exclusions(vec![v4(8, 8, 8, 8), v4(10, 0, 0, 1), v4(9, 9, 9, 9), v4(10, 0, 0, 2)], &ex);
    assert_eq!(kept, vec![v4(10, 0, 0, 1), v4(10, 0, 0, 2)]);
}

#[test]
fn exclusions_by_network() {
    let ex = vec![Network { addr: v4(10, 0, 0, 0), prefix: 24 }];
    let kept = apply_exclusions(vec![v4(10, 0, 0, 9), v4(10, 0, 1, 9)], &ex);
    assert_eq!(kept, vec![v4(10, 0, 1, 9)]);
    assert_eq!(apply_exclusions(vec![v4(1, 2, 3, 4)], &vec![]), vec![v4(1, 2, 3, 4)]);
}

#[test]
fn excluded_addresses_never_survive() {
    let ex = sensitive_dns_exclusions();
    let all: Vec<IpAddress> = (0..=255u32).map(|d| v4(8, 8, 8, d)).chain((0..=255u32).map(|d| v4(1, 1, 1, d))).collect();
    let kept = apply_exclusions(all.clone(), &ex);
    assert_eq!(kept.len(), all.len() - 2);
    for ip in &kept {
        assert!(!is_excluded(&ex, *ip));
        assert!(all.contains(ip));
    }
    for ip in &all {
        if !is_excluded(&ex, *ip) {
            assert!(kept.contains(ip));
        }
    }
}

#[test]
fn finish_targets_with_prefix_stops_at_the_first_v4_address() {
    assert_eq!(
        finish_targets("h", &vec![v4(1, 2, 3, 4), IpAddress::V6(1)], Some(31)),
        Ok(vec![v4(1, 2, 3, 4), v4(1, 2, 3, 5)])
    );
    assert_eq!(
        finish_targets("h", &vec![IpAddress::V6(4), v4(1, 2, 3, 4), v4(9, 9, 9, 9)], Some(126)),
        Err("Invalid IPv4 prefix: /126".to_string())
    );
}
