use synapse::date::{civil_from_days, ts_to_date};
use synapse::dns::{arpa_domain, build_query, build_query_with_id, parse_response, read_name, read_ptr_answer, DnsError};
use synapse::report::ts_label;
use synapse::targets::IpAddress;

fn labels(out: &mut Vec<u8>, name: &str) {
    for part in name.split('.') {
        out.push(part.len() as u8);
        out.extend_from_slice(part.as_bytes());
    }
    out.push(0);
}

/// A PTR response for `10.1.168.192.in-addr.arpa` whose first answer holds `rdata`.
fn ptr_response(answer_count: u16, rdata: &[u8]) -> Vec<u8> {
    let mut b = vec![0x12, 0x34, 0x81, 0x80, 0, 1, (answer_count >> 8) as u8, answer_count as u8, 0, 0, 0, 0];
    labels(&mut b, "10.1.168.192.in-addr.arpa");
    b.extend_from_slice(&[0, 12, 0, 1]);
    b.extend_from_slice(&[0xc0, 0x0c, 0, 12, 0, 1, 0, 0, 0x0e, 0x10, 0, rdata.len() as u8]);
    b.extend_from_slice(rdata);
    b
}

#[test]
fn arpa_name_of_v4_reverses_octets() {
    assert_eq!(arpa_domain(IpAddress::V4(0xC0A8_010A)), "10.1.168.192.in-addr.arpa");
    assert_eq!(arpa_domain(IpAddress::V4(0)), "0.0.0.0.in-addr.arpa");
}

#[test]
fn arpa_name_of_v6_reverses_nibbles() {
    let one = arpa_domain(IpAddress::V6(1));
    assert_eq!(one, format!("1.{}ip6.arpa", "0.".repeat(31)));
    let x = arpa_domain(IpAddress::V6(0x2001_0db8_0000_0000_0000_0000_0000_00ab));
    assert!(x.starts_with("b.a.0.0."));
    assert!(x.ends_with("8.b.d.0.1.0.0.2.ip6.arpa"));
    assert_eq!(x.len(), 64 + "ip6.arpa".len());
}

#[test]
fn query_layout() {
    let q = build_query_with_id(0x1234, "ab.c", 12);
    assert_eq!(
        q,
        vec![0x12, 0x34, 1, 0, 0, 1, 0, 0, 0, 0, 0, 0, 2, b'a', b'b', 1, b'c', 0, 0, 12, 0, 1]
    );
}

#[test]
fn random_query_differs_only_in_id() {
    let q = build_query("example.com", 12);
    let fixed = build_query_with_id(0, "example.com", 12);
    assert_eq!(q.len(), fixed.len());
    assert_eq!(q[2..], fixed[2..]);
}

#[test]
fn response_with_plain_name() {
    let mut rdata = Vec::new();
    labels(&mut rdata, "router.lan");
    let buf = ptr_response(1, &rdata);
    assert_eq!(parse_response(&buf), Ok("router.lan".to_string()));
    assert_eq!(read_ptr_answer(&buf), Some(Ok("router.lan".to_string())));
}

#[test]
fn response_with_compressed_name() {
    let rdata = vec![4, b'h', b'o', b's', b't', 0xc0, 0x0c];
    let buf = ptr_response(1, &rdata);
    assert_eq!(parse_response(&buf), Ok("host.10.1.168.192.in-addr.arpa".to_string()));
}

#[test]
fn response_without_answers() {
    let buf = ptr_response(0, &[0]);
    assert_eq!(parse_response(&buf), Err(DnsError::NoAnswer));
    assert_eq!(read_ptr_answer(&buf), Some(Err(DnsError::NoAnswer)));
}

#[test]
fn response_with_a_label_that_is_not_utf8() {
    let buf = ptr_response(1, &[2, 0xff, 0xfe, 0]);
    assert_eq!(parse_response(&buf), Err(DnsError::BadLabel));
}

#[test]
fn unreadable_answers_are_refused_by_the_checked_reader() {
    assert_eq!(read_ptr_answer(&[0, 1, 2]), None);
    let buf = ptr_response(1, &[5, b'a']);
    assert_eq!(read_ptr_answer(&buf), None);
    // a pointer to itself never ends
    let mut looping = ptr_response(1, &[0xc0, 0]);
    let at = looping.len() - 2;
    looping[at + 1] = at as u8;
    assert_eq!(read_ptr_answer(&looping), None);
}

#[test]
fn read_name_follows_pointers() {
    let buf = vec![3, b'w', b'w', b'w', 0, 1, b'x', 0xc0, 0];
    assert_eq!(read_name(&buf, 0), Ok("www".to_string()));
    assert_eq!(read_name(&buf, 5), Ok("x.www".to_string()));
    assert_eq!(read_name(&buf, 4), Ok(String::new()));
}

#[test]
fn dates_of_timestamps() {
    assert_eq!(ts_to_date(0), "1970-01-01");
    assert_eq!(ts_to_date(86399), "1970-01-01");
    assert_eq!(ts_to_date(951782400), "2000-02-29");
    assert_eq!(ts_to_date(1687869434), "2023-06-27");
    assert_eq!(ts_to_date(253402300799), "9999-12-31");
}

#[test]
fn dates_before_1970_count_days_toward_zero() {
    assert_eq!(ts_to_date(-1), "1970-01-01");
    assert_eq!(ts_to_date(-86400), "1969-12-31");
    assert_eq!(ts_to_date(-86401), "1969-12-31");
}

#[test]
fn civil_dates_of_day_counts() {
    assert_eq!(civil_from_days(0), (1970, 1, 1));
    assert_eq!(civil_from_days(-1), (1969, 12, 31));
    assert_eq!(civil_from_days(11016), (2000, 2, 29));
    assert_eq!(civil_from_days(59), (1970, 3, 1));
    assert_eq!(civil_from_days(-719468), (0, 3, 1));
}

#[test]
fn civil_dates_are_one_day_apart() {
    let mut prev = civil_from_days(-800);
    for z in -799..800 {
        let cur = civil_from_days(z);
        assert!(cur > prev, "day {} gave {:?} after {:?}", z, cur, prev);
        prev = cur;
    }
}

#[test]
fn time_labels() {
    assert_eq!(ts_label(0), "1970-01-01 00:00");
    assert_eq!(ts_label(1700000000), "2023-11-14 22:13");
    assert_eq!(ts_label(86399), "1970-01-01 23:59");
}
