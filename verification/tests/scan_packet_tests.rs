use synapse::packet::{
    build_echo_request, build_rst, build_syn, build_tcp_packet, build_tcp_packet_with_seq, ephemeral_port,
    parse_response, PortResponse, ScanConfig,
};
use synapse::scanner::{
    collect_statuses, connect_status, is_echo_reply, liveness_reply, partition_by_family, probe_flags,
    select_local_ips, status_label, ConnectOutcome, InterfaceInfo, PortStatus, RawScan,
    RawScanKind, ReplyAction, Tally,
};
use synapse::targets::IpAddress;

const OUR_IP: u32 = 0xC0A8_0102; // 192.168.1.2
const TARGET: u32 = 0xC0A8_0101; // 192.168.1.1

fn config() -> ScanConfig {
    ScanConfig {
        src_mac: [0x02, 0x00, 0x00, 0x00, 0x00, 0x01],
        dst_mac: [0x02, 0x00, 0x00, 0x00, 0x00, 0x02],
        src_ip: OUR_IP,
        src_port: 40000,
    }
}

/// Ones'-complement sum of big-endian words, folded.
fn fold(sum: u32) -> u16 {
    let mut s = sum;
    while s >> 16 != 0 {
        s = (s >> 16) + (s & 0xffff);
    }
    s as u16
}

fn word_sum(data: &[u8]) -> u32 {
    let mut s = 0u32;
    for pair in data.chunks(2) {
        let hi = pair[0] as u32;
        let lo = if pair.len() > 1 { pair[1] as u32 } else { 0 };
        s += (hi << 8) | lo;
    }
    s
}

#[test]
fn syn_frame_layout() {
    let f = build_syn(&config(), TARGET, 80, 0x01020304);
    assert_eq!(f.len(), 54);
    assert_eq!(&f[0..6], &[0x02, 0, 0, 0, 0, 0x02]);
    assert_eq!(&f[6..12], &[0x02, 0, 0, 0, 0, 0x01]);
    assert_eq!(&f[12..14], &[0x08, 0x00]);
    // IPv4 header
    assert_eq!(f[14], 0x45);
    assert_eq!(&f[16..18], &[0, 40]);
    assert_eq!(f[20], 0x40);
    assert_eq!(f[22], 64);
    assert_eq!(f[23], 6);
    assert_eq!(&f[26..30], &[192, 168, 1, 2]);
    assert_eq!(&f[30..34], &[192, 168, 1, 1]);
    // TCP header
    assert_eq!(&f[34..36], &[0x9c, 0x40]);
    assert_eq!(&f[36..38], &[0, 80]);
    assert_eq!(&f[38..42], &[1, 2, 3, 4]);
    assert_eq!(f[46], 0x50);
    assert_eq!(f[47], 0x02);
    assert_eq!(&f[48..50], &[4, 0]);
}

#[test]
fn syn_frame_ip_checksum_verifies() {
    let f = build_syn(&config(), TARGET, 80, 7);
    assert_eq!(fold(word_sum(&f[14..34])), 0xffff);
    assert_ne!(&f[24..26], &[0, 0]);
}

#[test]
fn syn_frame_tcp_checksum_verifies() {
    let f = build_syn(&config(), TARGET, 443, 99);
    let tcp = &f[34..54];
    let pseudo = word_sum(&f[26..34]) + 6 + tcp.len() as u32;
    assert_eq!(fold(pseudo + word_sum(tcp)), 0xffff);
}

#[test]
fn ip_checksum_of_a_known_header() {
    // 192.168.1.2 -> 192.168.1.1, id 0, DF, TTL 64, TCP, length 40
    let f = build_syn(&config(), TARGET, 1, 0);
    assert_eq!(&f[24..26], &[0xb7, 0x7c]);
}

#[test]
fn rst_frame_carries_rst() {
    let f = build_rst(&config(), TARGET, 22, 5);
    assert_eq!(f[47], 0x04);
    let s = build_syn(&config(), TARGET, 22, 5);
    assert_eq!(f[..47], s[..47]);
    assert_ne!(f[50..52], s[50..52]);
}

/// A reply from the target to us, with the given flags, from `port`.
fn reply(port: u16, flags: u8) -> Vec<u8> {
    let c = ScanConfig { src_mac: [0; 6], dst_mac: [0; 6], src_ip: TARGET, src_port: port };
    let mut f = build_syn(&c, OUR_IP, 40000, 1);
    f[47] = flags;
    f
}

#[test]
fn replies_are_read() {
    assert_eq!(parse_response(&reply(80, 0x12), OUR_IP), Some(PortResponse { port: 80, is_open: true }));
    assert_eq!(parse_response(&reply(81, 0x14), OUR_IP), Some(PortResponse { port: 81, is_open: false }));
    assert_eq!(parse_response(&reply(82, 0x04), OUR_IP), Some(PortResponse { port: 82, is_open: false }));
    assert_eq!(parse_response(&reply(83, 0x10), OUR_IP), None);
    assert_eq!(parse_response(&reply(84, 0x02), OUR_IP), None);
}

#[test]
fn replies_to_someone_else_or_not_tcp_are_ignored() {
    assert_eq!(parse_response(&reply(80, 0x12), TARGET), None);
    let mut udp = reply(80, 0x12);
    udp[23] = 17;
    assert_eq!(parse_response(&udp, OUR_IP), None);
    let mut arp = reply(80, 0x12);
    arp[12] = 0x08;
    arp[13] = 0x06;
    assert_eq!(parse_response(&arp, OUR_IP), None);
    assert_eq!(parse_response(&[0u8; 10], OUR_IP), None);
    let short = reply(80, 0x12);
    assert_eq!(parse_response(&short[..50], OUR_IP), None);
}

#[test]
fn reply_with_ip_options_reads_past_them() {
    let mut f = reply(8080, 0x12);
    // grow the IPv4 header by one option word
    f[14] = 0x46;
    f[17] = 44;
    f.splice(34..34, [1u8, 1, 1, 1]);
    assert_eq!(parse_response(&f, OUR_IP), Some(PortResponse { port: 8080, is_open: true }));
}

#[test]
fn probe_flags_of_each_kind() {
    assert_eq!(probe_flags(RawScanKind::Syn), 0x02);
    assert_eq!(probe_flags(RawScanKind::Fin), 0x01);
    assert_eq!(probe_flags(RawScanKind::Null), 0x00);
    assert_eq!(probe_flags(RawScanKind::Xmas), 0x29);
}

#[test]
fn syn_scan_bookkeeping() {
    let mut s = RawScan::new(RawScanKind::Syn);
    s.probe_sent(80);
    s.probe_sent(81);
    s.probe_sent(82);
    assert!(!s.all_answered());
    assert_eq!(s.reply(true, 80, 0x12), ReplyAction::Answered { send_rst: true });
    assert_eq!(s.reply(true, 81, 0x14), ReplyAction::Answered { send_rst: false });
    assert_eq!(s.reply(true, 80, 0x04), ReplyAction::Ignore);
    assert_eq!(s.reply(false, 82, 0x12), ReplyAction::Ignore);
    assert_eq!(s.reply(true, 9999, 0x12), ReplyAction::Ignore);
    assert!(!s.all_answered());
    let m = s.into_statuses();
    assert_eq!(m.len(), 3);
    assert_eq!(m[&80], PortStatus::Open);
    assert_eq!(m[&81], PortStatus::Closed);
    assert_eq!(m[&82], PortStatus::Filtered);
}

#[test]
fn fin_null_xmas_scans_read_rst_as_closed_and_silence_as_open_filtered() {
    for kind in [RawScanKind::Fin, RawScanKind::Null, RawScanKind::Xmas] {
        let mut s = RawScan::new(kind);
        s.probe_sent(22);
        s.probe_sent(23);
        s.probe_sent(24);
        assert_eq!(s.reply(true, 22, 0x14), ReplyAction::Answered { send_rst: false });
        assert_eq!(s.reply(true, 23, 0x12), ReplyAction::Answered { send_rst: false });
        let m = s.into_statuses();
        assert_eq!(m[&22], PortStatus::Closed);
        assert_eq!(m[&23], PortStatus::OpenFiltered);
        assert_eq!(m[&24], PortStatus::OpenFiltered);
    }
}

#[test]
fn replies_keep_the_probed_ports() {
    let mut s = RawScan::new(RawScanKind::Syn);
    s.probe_sent(1);
    s.reply(true, 2, 0x12);
    s.reply(true, 1, 0x12);
    s.reply(true, 1, 0x04);
    assert!(s.all_answered());
    let m = s.into_statuses();
    assert_eq!(m.len(), 1);
    assert_eq!(m[&1], PortStatus::Open);
}

#[test]
fn liveness_replies() {
    assert!(liveness_reply(0x12));
    assert!(liveness_reply(0x04));
    assert!(liveness_reply(0x14));
    assert!(!liveness_reply(0x02));
    assert!(!liveness_reply(0x10));
}

#[test]
fn tally_counts_answers_once() {
    let a = IpAddress::V4(1);
    let b = IpAddress::V4(2);
    let c = IpAddress::V4(3);
    let mut t = Tally::new(&vec![a, b, a]);
    assert_eq!(t.awaited_count(), 3);
    assert!(t.answer_from(a));
    assert!(!t.answer_from(a));
    assert!(!t.answer_from(c));
    assert_eq!(t.awaited_count(), 2);
    assert!(t.is_up(a));
    assert!(!t.is_up(b));
    assert!(!t.is_up(c));
    t.await_unanswered();
    assert_eq!(t.awaited_count(), 1);
    assert!(!t.done());
    assert!(t.answer_from(b));
    assert!(t.done());
}

#[test]
fn tally_of_nothing_is_done() {
    let t = Tally::new(&vec![]);
    assert!(t.done());
}

#[test]
fn families_are_split_in_order() {
    let ips = vec![IpAddress::V6(1), IpAddress::V4(1), IpAddress::V6(2), IpAddress::V4(2)];
    let (v4, v6) = partition_by_family(&ips);
    assert_eq!(v4, vec![IpAddress::V4(1), IpAddress::V4(2)]);
    assert_eq!(v6, vec![IpAddress::V6(1), IpAddress::V6(2)]);
}

#[test]
fn local_addresses_skip_loopback_and_down_interfaces() {
    let ifaces = vec![
        InterfaceInfo { is_loopback: true, is_up: true, ips: vec![IpAddress::V4(0x7f00_0001), IpAddress::V6(1)] },
        InterfaceInfo { is_loopback: false, is_up: false, ips: vec![IpAddress::V4(0x0a00_0009)] },
        InterfaceInfo { is_loopback: false, is_up: true, ips: vec![IpAddress::V6(0xfe80 << 112), IpAddress::V4(0x0a00_0002)] },
        InterfaceInfo { is_loopback: false, is_up: true, ips: vec![IpAddress::V4(0x0a00_0003)] },
    ];
    assert_eq!(select_local_ips(&ifaces), (Some(0x0a00_0002), Some(0xfe80 << 112)));
    assert_eq!(select_local_ips(&vec![]), (None, None));
}

#[test]
fn connect_outcomes() {
    assert_eq!(connect_status(ConnectOutcome::Connected), PortStatus::Open);
    assert_eq!(connect_status(ConnectOutcome::Refused), PortStatus::Closed);
    assert_eq!(connect_status(ConnectOutcome::OtherError), PortStatus::Filtered);
    assert_eq!(connect_status(ConnectOutcome::TimedOut), PortStatus::Filtered);
    let m = collect_statuses(
        &vec![80, 81, 82, 80],
        &vec![ConnectOutcome::Connected, ConnectOutcome::Refused, ConnectOutcome::TimedOut, ConnectOutcome::Refused],
    );
    assert_eq!(m.len(), 3);
    assert_eq!(m[&80], PortStatus::Closed);
    assert_eq!(m[&81], PortStatus::Closed);
    assert_eq!(m[&82], PortStatus::Filtered);
}

#[test]
fn status_names() {
    assert_eq!(status_label(PortStatus::Open), "Open");
    assert_eq!(status_label(PortStatus::OpenFiltered), "OpenFiltered");
    assert_eq!(format!("{:?}", PortStatus::Filtered), "Filtered");
}

#[test]
fn frames_built_toward_us_read_back_as_their_flags_say() {
    let peer = ScanConfig { src_mac: [1; 6], dst_mac: [2; 6], src_ip: TARGET, src_port: 4321 };
    assert_eq!(
        parse_response(&build_rst(&peer, OUR_IP, 40000, 3), OUR_IP),
        Some(PortResponse { port: 4321, is_open: false })
    );
    assert_eq!(parse_response(&build_syn(&peer, OUR_IP, 40000, 3), OUR_IP), None);
    assert_eq!(parse_response(&build_rst(&peer, TARGET, 40000, 3), OUR_IP), None);
}

#[test]
fn echo_request_bytes() {
    assert_eq!(build_echo_request(), vec![8, 0, 0xf7, 0xff, 0, 0, 0, 0]);
}

#[test]
fn v4_segment_matches_the_frame_builder() {
    let seg = build_tcp_packet_with_seq(IpAddress::V4(OUR_IP), IpAddress::V4(TARGET), 40000, 80, 0x02, 0x01020304);
    let frame = build_syn(&config(), TARGET, 80, 0x01020304);
    assert_eq!(seg, frame[34..54].to_vec());
}

#[test]
fn v6_segment_checksum_verifies() {
    let src: u128 = 0xfe80_0000_0000_0000_0000_0000_0000_0001;
    let dst: u128 = 0x2001_0db8_0000_0000_0000_0000_0000_0002;
    let seg = build_tcp_packet_with_seq(IpAddress::V6(src), IpAddress::V6(dst), 50000, 443, 0x02, 77);
    assert_eq!(seg.len(), 20);
    assert_eq!(seg[13], 0x02);
    let mut sum = 0u32;
    for x in [src, dst] {
        for k in 0..8 {
            sum += ((x >> (16 * k)) & 0xffff) as u32;
        }
    }
    sum += 6 + 20 + word_sum(&seg);
    assert_eq!(fold(sum), 0xffff);
}

#[test]
fn random_segments_differ_only_in_sequence_and_checksum() {
    let a = build_tcp_packet(IpAddress::V4(OUR_IP), IpAddress::V4(TARGET), 40000, 22, 0x02);
    let b = build_tcp_packet_with_seq(IpAddress::V4(OUR_IP), IpAddress::V4(TARGET), 40000, 22, 0x02, 0);
    assert_eq!(a[..4], b[..4]);
    assert_eq!(a[8..16], b[8..16]);
    assert_eq!(a[18..], b[18..]);
    let seq = u32::from_be_bytes([a[4], a[5], a[6], a[7]]);
    let c = build_tcp_packet_with_seq(IpAddress::V4(OUR_IP), IpAddress::V4(TARGET), 40000, 22, 0x02, seq);
    assert_eq!(a, c);
}

#[test]
fn ephemeral_ports_are_in_the_dynamic_range() {
    for _ in 0..200 {
        let p = ephemeral_port();
        assert!((49152..65535).contains(&p));
    }
}

#[test]
fn echo_replies_are_type_zero() {
    assert!(is_echo_reply(0));
    assert!(!is_echo_reply(8));
    assert!(!is_echo_reply(3));
}
