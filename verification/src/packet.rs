//! Raw Ethernet/IPv4/TCP frames: building probe frames and reading replies.
use vstd::prelude::*;
use crate::targets::IpAddress;

verus! {

/// TCP flag bits.
pub const TCP_FIN: u8 = 0x01;
pub const TCP_SYN: u8 = 0x02;
pub const TCP_RST: u8 = 0x04;
pub const TCP_PSH: u8 = 0x08;
pub const TCP_ACK: u8 = 0x10;
pub const TCP_URG: u8 = 0x20;

/// Where probe frames come from: the local and next-hop MAC addresses,
/// the local IPv4 address and the local TCP port.
pub struct ScanConfig {
    pub src_mac: [u8; 6],
    pub dst_mac: [u8; 6],
    pub src_ip: u32,
    pub src_port: u16,
}

/// What a reply frame says of a probed port.
#[derive(PartialEq, Eq, Structural, Clone, Copy, Debug)]
pub struct PortResponse {
    pub port: u16,
    pub is_open: bool,
}

// ---------------------------------------------------------------------------
// The Internet checksum, as `pnet::packet::util` computes it
// ---------------------------------------------------------------------------

/// The `i`-th big-endian 16-bit word of `data`.
pub open spec fn word_at(data: Seq<u8>, i: int) -> nat {
    data[2 * i] as nat * 256 + data[2 * i + 1] as nat
}

/// The sum of the first `n` words of `data`, leaving out word `skip`.
pub open spec fn sum_words(data: Seq<u8>, skip: nat, n: nat) -> nat
    decreases n,
{
    if n == 0 {
        0
    } else {
        sum_words(data, skip, (n - 1) as nat) + if n - 1 == skip {
            0
        } else {
            word_at(data, n - 1)
        }
    }
}

/// The sum of the big-endian words of `data`, word `skip` left out; an odd
/// last byte counts as the high byte of a word.
pub open spec fn sum_be_words(data: Seq<u8>, skip: nat) -> nat {
    sum_words(data, skip, data.len() / 2) + if data.len() % 2 == 1 && data.len() / 2 != skip {
        data.last() as nat * 256
    } else {
        0
    }
}

/// A sum with its carries folded back in until it fits in 16 bits.
pub open spec fn fold_carries(sum: nat) -> nat
    decreases sum,
{
    if sum >= 65536 {
        fold_carries(sum / 65536 + sum % 65536)
    } else {
        sum
    }
}

/// The ones' complement of the folded sum.
pub open spec fn finish_checksum(sum: nat) -> u16 {
    (65535 - fold_carries(sum)) as u16
}

/// The Internet checksum of `data` with word `skip` left out (zero for no data).
pub open spec fn internet_checksum(data: Seq<u8>, skip: nat) -> u16 {
    if data.len() == 0 {
        0
    } else {
        finish_checksum(sum_be_words(data, skip))
    }
}

/// The checksum of a TCP segment over IPv4: the pseudo-header (the two
/// addresses, the protocol number 6 and the segment length) and the
/// segment, with word 8 (the checksum field) left out.
pub open spec fn tcp_v4_checksum(segment: Seq<u8>, src: u32, dst: u32) -> u16 {
    finish_checksum(
        src as nat / 65536 + src as nat % 65536 + dst as nat / 65536 + dst as nat % 65536 + 6
            + segment.len() + sum_be_words(segment, 8),
    )
}

/// The Internet checksum (`pnet::packet::util::checksum`).
#[verifier::external_body]
fn util_checksum(data: &[u8], skipword: usize) -> (r: u16)
    requires
        data@.len() <= 4096,
    ensures
        r == internet_checksum(data@, skipword as nat),
{
    pnet::packet::util::checksum(data, skipword)
}

/// The TCP-over-IPv4 checksum of a segment (`pnet::packet::util::ipv4_checksum`
/// with skip word 8, no extra data and protocol TCP, as `tcp::ipv4_checksum` calls it).
#[verifier::external_body]
fn util_tcp_v4_checksum(segment: &[u8], src: [u8; 4], dst: [u8; 4]) -> (r: u16)
    requires
        segment@.len() <= 4096,
    ensures
        r == tcp_v4_checksum(segment@, be32_value(src@), be32_value(dst@)),
{
    pnet::packet::util::ipv4_checksum(
        segment,
        8,
        &[],
        &src.into(),
        &dst.into(),
        pnet::packet::ip::IpNextHeaderProtocols::Tcp,
    )
}

// ---------------------------------------------------------------------------
// Building probe frames
// ---------------------------------------------------------------------------

pub open spec fn be16_bytes(n: u16) -> Seq<u8> {
    seq![(n / 256) as u8, (n % 256) as u8]
}

pub open spec fn be32_bytes(n: u32) -> Seq<u8> {
    seq![(n / 16777216) as u8, ((n / 65536) % 256) as u8, ((n / 256) % 256) as u8, (n % 256) as u8]
}

/// The value of four big-endian bytes.
pub open spec fn be32_value(b: Seq<u8>) -> u32 {
    (b[0] as nat * 16777216 + b[1] as nat * 65536 + b[2] as nat * 256 + b[3] as nat) as u32
}

/// The Ethernet header: destination, source, type IPv4.
pub open spec fn ethernet_header(c: ScanConfig) -> Seq<u8> {
    c.dst_mac@ + c.src_mac@ + seq![0x08u8, 0x00u8]
}

/// The IPv4 header with a zero checksum: version 4, five words, total
/// length 40, don't-fragment, TTL 64, protocol TCP.
pub open spec fn ipv4_header_unsummed(src: u32, dst: u32) -> Seq<u8> {
    seq![0x45u8, 0u8, 0u8, 40u8, 0u8, 0u8, 0x40u8, 0u8, 64u8, 6u8, 0u8, 0u8] + be32_bytes(src)
        + be32_bytes(dst)
}

/// The IPv4 header with its checksum.
pub open spec fn ipv4_header(src: u32, dst: u32) -> Seq<u8> {
    let h = ipv4_header_unsummed(src, dst);
    h.subrange(0, 10) + be16_bytes(internet_checksum(h, 5)) + h.subrange(12, 20)
}

/// The TCP header with a zero checksum: five words, the flags, window 1024.
pub open spec fn tcp_header_unsummed(src_port: u16, dst_port: u16, seq_num: u32, flags: u8) -> Seq<
    u8,
> {
    be16_bytes(src_port) + be16_bytes(dst_port) + be32_bytes(seq_num) + seq![
        0u8,
        0u8,
        0u8,
        0u8,
        0x50u8,
        flags,
        4u8,
        0u8,
        0u8,
        0u8,
        0u8,
        0u8,
    ]
}

/// The TCP header with its checksum.
pub open spec fn tcp_header(
    src: u32,
    dst: u32,
    src_port: u16,
    dst_port: u16,
    seq_num: u32,
    flags: u8,
) -> Seq<u8> {
    let t = tcp_header_unsummed(src_port, dst_port, seq_num, flags);
    t.subrange(0, 16) + be16_bytes(tcp_v4_checksum(t, src, dst)) + t.subrange(18, 20)
}

/// A 54-byte probe frame: Ethernet, IPv4 and TCP headers, no payload.
pub open spec fn probe_frame(c: ScanConfig, dst_ip: u32, dst_port: u16, flags: u8, seq_num: u32) -> Seq<
    u8,
> {
    ethernet_header(c) + ipv4_header(c.src_ip, dst_ip) + tcp_header(
        c.src_ip,
        dst_ip,
        c.src_port,
        dst_port,
        seq_num,
        flags,
    )
}

fn push_be16(out: &mut Vec<u8>, n: u16)
    ensures
        final(out)@ == old(out)@ + be16_bytes(n),
{
    out.push((n / 256) as u8);
    out.push((n % 256) as u8);
    assert(out@ =~= old(out)@ + be16_bytes(n));
}

fn push_be32(out: &mut Vec<u8>, n: u32)
    ensures
        final(out)@ == old(out)@ + be32_bytes(n),
{
    out.push((n / 16777216) as u8);
    out.push(((n / 65536) % 256) as u8);
    out.push(((n / 256) % 256) as u8);
    out.push((n % 256) as u8);
    assert(out@ =~= old(out)@ + be32_bytes(n));
}

fn be32_array(n: u32) -> (r: [u8; 4])
    ensures
        r@ == be32_bytes(n),
        be32_value(r@) == n,
{
    let r = [(n / 16777216) as u8, ((n / 65536) % 256) as u8, ((n / 256) % 256) as u8, (n % 256) as u8];
    assert(r@ =~= be32_bytes(n));
    r
}

fn build_packet(config: &ScanConfig, dst_ip: u32, dst_port: u16, flags: u8, seq_num: u32) -> (r: Vec<
    u8,
>)
    ensures
        r@ == probe_frame(*config, dst_ip, dst_port, flags, seq_num),
{
    let mut ip: Vec<u8> = Vec::new();
    ip.push(0x45);
    ip.push(0);
    ip.push(0);
    ip.push(40);
    ip.push(0);
    ip.push(0);
    ip.push(0x40);
    ip.push(0);
    ip.push(64);
    ip.push(6);
    ip.push(0);
    ip.push(0);
    push_be32(&mut ip, config.src_ip);
    push_be32(&mut ip, dst_ip);
    assert(ip@ =~= ipv4_header_unsummed(config.src_ip, dst_ip));
    let ip_sum = util_checksum(ip.as_slice(), 5);
    ip.set(10, (ip_sum / 256) as u8);
    ip.set(11, (ip_sum % 256) as u8);
    assert(ip@ =~= ipv4_header(config.src_ip, dst_ip));

    let mut tcp: Vec<u8> = Vec::new();
    push_be16(&mut tcp, config.src_port);
    push_be16(&mut tcp, dst_port);
    push_be32(&mut tcp, seq_num);
    tcp.push(0);
    tcp.push(0);
    tcp.push(0);
    tcp.push(0);
    tcp.push(0x50);
    tcp.push(flags);
    tcp.push(4);
    tcp.push(0);
    tcp.push(0);
    tcp.push(0);
    tcp.push(0);
    tcp.push(0);
    assert(tcp@ =~= tcp_header_unsummed(config.src_port, dst_port, seq_num, flags));
    let tcp_sum = util_tcp_v4_checksum(tcp.as_slice(), be32_array(config.src_ip), be32_array(dst_ip));
    tcp.set(16, (tcp_sum / 256) as u8);
    tcp.set(17, (tcp_sum % 256) as u8);
    assert(tcp@ =~= tcp_header(config.src_ip, dst_ip, config.src_port, dst_port, seq_num, flags));

    let mut frame: Vec<u8> = Vec::new();
    let mut i: usize = 0;
    while i < 6
        invariant
            i <= 6,
            frame@ == config.dst_mac@.take(i as int),
        decreases 6 - i,
    {
        frame.push(config.dst_mac[i]);
        assert(config.dst_mac@.take(i + 1) =~= config.dst_mac@.take(i as int).push(
            config.dst_mac@[i as int],
        ));
        i = i + 1;
    }
    let mut i: usize = 0;
    while i < 6
        invariant
            i <= 6,
            frame@ == config.dst_mac@ + config.src_mac@.take(i as int),
        decreases 6 - i,
    {
        frame.push(config.src_mac[i]);
        assert(config.src_mac@.take(i + 1) =~= config.src_mac@.take(i as int).push(
            config.src_mac@[i as int],
        ));
        i = i + 1;
    }
    frame.push(0x08);
    frame.push(0x00);
    assert(frame@ =~= ethernet_header(*config));
    let ghost eth = frame@;
    let mut i: usize = 0;
    while i < ip.len()
        invariant
            i <= ip@.len(),
            frame@ == eth + ip@.take(i as int),
        decreases ip@.len() - i,
    {
        frame.push(ip[i]);
        assert(ip@.take(i + 1) =~= ip@.take(i as int).push(ip@[i as int]));
        i = i + 1;
    }
    assert(ip@.take(i as int) =~= ip@);
    let ghost eth_ip = frame@;
    let mut i: usize = 0;
    while i < tcp.len()
        invariant
            i <= tcp@.len(),
            frame@ == eth_ip + tcp@.take(i as int),
        decreases tcp@.len() - i,
    {
        frame.push(tcp[i]);
        assert(tcp@.take(i + 1) =~= tcp@.take(i as int).push(tcp@[i as int]));
        i = i + 1;
    }
    assert(tcp@.take(i as int) =~= tcp@);
    frame
}

/// A SYN probe frame to `dst_ip:dst_port` with sequence number `seq_num`.
pub fn build_syn(config: &ScanConfig, dst_ip: u32, dst_port: u16, seq_num: u32) -> (r: Vec<u8>)
    ensures
        r@ == probe_frame(*config, dst_ip, dst_port, TCP_SYN, seq_num),
{
    build_packet(config, dst_ip, dst_port, TCP_SYN, seq_num)
}

/// An RST frame to `dst_ip:dst_port` with sequence number `seq_num`.
pub fn build_rst(config: &ScanConfig, dst_ip: u32, dst_port: u16, seq_num: u32) -> (r: Vec<u8>)
    ensures
        r@ == probe_frame(*config, dst_ip, dst_port, TCP_RST, seq_num),
{
    build_packet(config, dst_ip, dst_port, TCP_RST, seq_num)
}

// ---------------------------------------------------------------------------
// TCP segments and ICMP echo requests for the transport channels
// ---------------------------------------------------------------------------

/// The sum of the `n` lowest 16-bit words of `x`.
pub open spec fn low_words_sum(x: nat, n: nat) -> nat
    decreases n,
{
    if n == 0 {
        0
    } else {
        x % 65536 + low_words_sum(x / 65536, (n - 1) as nat)
    }
}

/// The checksum of a TCP segment over IPv6: the pseudo-header (the two
/// addresses, the segment length and the next-header number 6) and the
/// segment, with word 8 (the checksum field) left out.
pub open spec fn tcp_v6_checksum(segment: Seq<u8>, src: u128, dst: u128) -> u16 {
    finish_checksum(
        low_words_sum(src as nat, 8) + low_words_sum(dst as nat, 8) + 6 + segment.len()
            + sum_be_words(segment, 8),
    )
}

/// The TCP-over-IPv6 checksum of a segment (`pnet::packet::util::ipv6_checksum`
/// with skip word 8, no extra data and next header TCP, as `tcp::ipv6_checksum` calls it).
#[verifier::external_body]
fn util_tcp_v6_checksum(segment: &[u8], src: u128, dst: u128) -> (r: u16)
    requires
        segment@.len() <= 4096,
    ensures
        r == tcp_v6_checksum(segment@, src, dst),
{
    pnet::packet::util::ipv6_checksum(
        segment,
        8,
        &[],
        &src.into(),
        &dst.into(),
        pnet::packet::ip::IpNextHeaderProtocols::Tcp,
    )
}

/// A TCP segment of no payload from `src` to `dst` (one address family):
/// the header of `tcp_header_unsummed` with the checksum of that family.
pub open spec fn tcp_segment_bytes(
    src: IpAddress,
    dst: IpAddress,
    src_port: u16,
    dst_port: u16,
    seq_num: u32,
    flags: u8,
) -> Seq<u8> {
    let t = tcp_header_unsummed(src_port, dst_port, seq_num, flags);
    let cs = match (src, dst) {
        (IpAddress::V4(a), IpAddress::V4(b)) => tcp_v4_checksum(t, a, b),
        (IpAddress::V6(a), IpAddress::V6(b)) => tcp_v6_checksum(t, a, b),
        _ => 0,
    };
    t.subrange(0, 16) + be16_bytes(cs) + t.subrange(18, 20)
}

fn tcp_unsummed(src_port: u16, dst_port: u16, seq_num: u32, flags: u8) -> (r: Vec<u8>)
    ensures
        r@ == tcp_header_unsummed(src_port, dst_port, seq_num, flags),
{
    let mut tcp: Vec<u8> = Vec::new();
    push_be16(&mut tcp, src_port);
    push_be16(&mut tcp, dst_port);
    push_be32(&mut tcp, seq_num);
    tcp.push(0);
    tcp.push(0);
    tcp.push(0);
    tcp.push(0);
    tcp.push(0x50);
    tcp.push(flags);
    tcp.push(4);
    tcp.push(0);
    tcp.push(0);
    tcp.push(0);
    tcp.push(0);
    tcp.push(0);
    assert(tcp@ =~= tcp_header_unsummed(src_port, dst_port, seq_num, flags));
    tcp
}

/// The TCP segment a transport channel sends from `src_ip:src_port` to
/// `dst_ip:dst_port` with the given flags and sequence number.
pub fn build_tcp_packet_with_seq(
    src_ip: IpAddress,
    dst_ip: IpAddress,
    src_port: u16,
    dst_port: u16,
    flags: u8,
    seq_num: u32,
) -> (r: Vec<u8>)
    requires
        (src_ip is V4) == (dst_ip is V4),
    ensures
        r@ == tcp_segment_bytes(src_ip, dst_ip, src_port, dst_port, seq_num, flags),
{
    let mut tcp = tcp_unsummed(src_port, dst_port, seq_num, flags);
    let ghost t = tcp@;
    let cs = match (src_ip, dst_ip) {
        (IpAddress::V4(a), IpAddress::V4(b)) => util_tcp_v4_checksum(
            tcp.as_slice(),
            be32_array(a),
            be32_array(b),
        ),
        (IpAddress::V6(a), IpAddress::V6(b)) => util_tcp_v6_checksum(tcp.as_slice(), a, b),
        _ => 0,
    };
    tcp.set(16, (cs / 256) as u8);
    tcp.set(17, (cs % 256) as u8);
    assert(tcp@ =~= t.subrange(0, 16) + be16_bytes(cs) + t.subrange(18, 20));
    tcp
}

/// A random 32-bit value from the thread-local generator (`rand::random`).
#[verifier::external_body]
fn random_u32() -> u32 {
    rand::random::<u32>()
}

/// The TCP segment a transport channel sends, with a random sequence number.
pub fn build_tcp_packet(src_ip: IpAddress, dst_ip: IpAddress, src_port: u16, dst_port: u16, flags: u8) -> (r: Vec<u8>)
    requires
        (src_ip is V4) == (dst_ip is V4),
    ensures
        exists|seq_num: u32| r@ == tcp_segment_bytes(src_ip, dst_ip, src_port, dst_port, seq_num, flags),
{
    let seq_num = random_u32();
    build_tcp_packet_with_seq(src_ip, dst_ip, src_port, dst_port, flags, seq_num)
}

/// A random value in `lo..hi` from the thread-local generator (`rand::random_range`).
#[verifier::external_body]
fn random_in_range(lo: u16, hi: u16) -> (r: u16)
    requires
        lo < hi,
    ensures
        lo <= r < hi,
{
    rand::random_range(lo..hi)
}

/// A random source port for a probe, from the dynamic range 49152..65535.
pub fn ephemeral_port() -> (r: u16)
    ensures
        49152 <= r < 65535,
{
    random_in_range(49152, 65535)
}

/// An ICMP echo request: type 8, code 0, identifier and sequence zero, no
/// data, with its checksum.
pub open spec fn echo_request_bytes() -> Seq<u8> {
    let h = seq![8u8, 0u8, 0u8, 0u8, 0u8, 0u8, 0u8, 0u8];
    h.subrange(0, 2) + be16_bytes(internet_checksum(h, 1)) + h.subrange(4, 8)
}

/// An ICMP echo request for the host-discovery sweep.
pub fn build_echo_request() -> (r: Vec<u8>)
    ensures
        r@ == echo_request_bytes(),
{
    let mut h: Vec<u8> = Vec::new();
    h.push(8);
    h.push(0);
    h.push(0);
    h.push(0);
    h.push(0);
    h.push(0);
    h.push(0);
    h.push(0);
    let ghost start = h@;
    assert(start =~= seq![8u8, 0u8, 0u8, 0u8, 0u8, 0u8, 0u8, 0u8]);
    let cs = util_checksum(h.as_slice(), 1);
    h.set(2, (cs / 256) as u8);
    h.set(3, (cs % 256) as u8);
    assert(h@ =~= start.subrange(0, 2) + be16_bytes(cs) + start.subrange(4, 8));
    h
}

// ---------------------------------------------------------------------------
// Reading reply frames
// ---------------------------------------------------------------------------

/// The bytes of an IPv4 packet's payload as `Ipv4Packet::payload` gives
/// them: from the end of the header (at least 20 bytes) for the length the
/// total-length field leaves, cut at the end of the packet.
pub open spec fn ipv4_payload(ip: Seq<u8>) -> Seq<u8> {
    let ihl4 = (ip[0] % 16) as int * 4;
    let start = if ihl4 > 20 {
        ihl4
    } else {
        20
    };
    let total = ip[2] as int * 256 + ip[3] as int;
    let plen = if total > ihl4 {
        total - ihl4
    } else {
        0
    };
    let end = if start + plen < ip.len() {
        start + plen
    } else {
        ip.len() as int
    };
    if ip.len() <= start {
        Seq::empty()
    } else {
        ip.subrange(start, end)
    }
}

/// What a reply frame says: nothing unless it is an IPv4 TCP segment to
/// `our_ip`; then SYN+ACK marks the source port open, RST marks it closed,
/// anything else says nothing.
pub open spec fn reply_of(frame: Seq<u8>, our_ip: u32) -> Option<PortResponse> {
    if frame.len() < 14 || frame[12] != 0x08 || frame[13] != 0x00 {
        None
    } else {
        let ip = frame.skip(14);
        if ip.len() < 20 || be32_value(ip.subrange(16, 20)) != our_ip || ip[9] != 6 {
            None
        } else {
            let tcp = ipv4_payload(ip);
            if tcp.len() < 20 {
                None
            } else {
                let flags = tcp[13];
                let port = (tcp[0] as nat * 256 + tcp[1] as nat) as u16;
                if flags & TCP_SYN != 0 && flags & TCP_ACK != 0 {
                    Some(PortResponse { port, is_open: true })
                } else if flags & TCP_RST != 0 {
                    Some(PortResponse { port, is_open: false })
                } else {
                    None
                }
            }
        }
    }
}

/// Reads a captured frame for a reply to a probe sent from `our_ip`.
pub fn parse_response(frame: &[u8], our_ip: u32) -> (r: Option<PortResponse>)
    ensures
        r == reply_of(frame@, our_ip),
{
    if frame.len() < 14 || frame[12] != 0x08 || frame[13] != 0x00 {
        return None;
    }
    let ip = &frame[14..frame.len()];
    assert(ip@ =~= frame@.skip(14));
    if ip.len() < 20 {
        return None;
    }
    let dest = ((ip[16] as u32) * 16777216 + (ip[17] as u32) * 65536 + (ip[18] as u32) * 256 + (
    ip[19] as u32)) as u32;
    assert(dest == be32_value(ip@.subrange(16, 20)));
    if dest != our_ip || ip[9] != 6 {
        return None;
    }
    let ihl4: usize = ((ip[0] % 16) as usize) * 4;
    let start: usize = if ihl4 > 20 {
        ihl4
    } else {
        20
    };
    let total: usize = (ip[2] as usize) * 256 + (ip[3] as usize);
    let plen: usize = if total > ihl4 {
        total - ihl4
    } else {
        0
    };
    let end: usize = if start + plen < ip.len() {
        start + plen
    } else {
        ip.len()
    };
    if ip.len() <= start {
        return None;
    }
    let tcp = &ip[start..end];
    assert(tcp@ =~= ipv4_payload(ip@));
    if tcp.len() < 20 {
        return None;
    }
    let flags = tcp[13];
    let port = ((tcp[0] as u16) * 256 + (tcp[1] as u16)) as u16;
    if flags & TCP_SYN != 0 && flags & TCP_ACK != 0 {
        Some(PortResponse { port, is_open: true })
    } else if flags & TCP_RST != 0 {
        Some(PortResponse { port, is_open: false })
    } else {
        None
    }
}

/// What the reader makes of a reply flag byte: SYN+ACK is the port open,
/// RST is the port closed, anything else says nothing.
pub open spec fn reply_for_flags(port: u16, flags: u8) -> Option<PortResponse> {
    if flags & TCP_SYN != 0 && flags & TCP_ACK != 0 {
        Some(PortResponse { port, is_open: true })
    } else if flags & TCP_RST != 0 {
        Some(PortResponse { port, is_open: false })
    } else {
        None
    }
}

proof fn lemma_ipv4_header_fields(src: u32, dst: u32)
    ensures
        ipv4_header(src, dst).len() == 20,
        ipv4_header(src, dst)[0] == 0x45,
        ipv4_header(src, dst)[2] == 0,
        ipv4_header(src, dst)[3] == 40,
        ipv4_header(src, dst)[9] == 6,
        ipv4_header(src, dst).subrange(16, 20) == be32_bytes(dst),
{
    let h = ipv4_header_unsummed(src, dst);
    let cs = internet_checksum(h, 5);
    assert(h.len() == 20);
    let full = h.subrange(0, 10) + be16_bytes(cs) + h.subrange(12, 20);
    assert(full.subrange(16, 20) =~= h.subrange(16, 20));
    assert(h.subrange(16, 20) =~= be32_bytes(dst));
}

proof fn lemma_tcp_header_fields(src: u32, dst: u32, src_port: u16, dst_port: u16, seq_num: u32, flags: u8)
    ensures
        tcp_header(src, dst, src_port, dst_port, seq_num, flags).len() == 20,
        tcp_header(src, dst, src_port, dst_port, seq_num, flags)[13] == flags,
        tcp_header(src, dst, src_port, dst_port, seq_num, flags)[0] == (src_port / 256) as u8,
        tcp_header(src, dst, src_port, dst_port, seq_num, flags)[1] == (src_port % 256) as u8,
{
    let t = tcp_header_unsummed(src_port, dst_port, seq_num, flags);
    assert(t.len() == 20);
    assert(t[13] == flags);
}

proof fn lemma_reply_of_parts(e: Seq<u8>, iph: Seq<u8>, tcp: Seq<u8>, our_ip: u32)
    requires
        e.len() == 14,
        e[12] == 0x08,
        e[13] == 0x00,
        iph.len() == 20,
        iph[0] == 0x45,
        iph[2] == 0,
        iph[3] == 40,
        iph[9] == 6,
        iph.subrange(16, 20) == be32_bytes(our_ip),
        tcp.len() == 20,
    ensures
        reply_of(e + iph + tcp, our_ip) == reply_for_flags(
            (tcp[0] as nat * 256 + tcp[1] as nat) as u16,
            tcp[13],
        ),
{
    let f = e + iph + tcp;
    assert(f[12] == 0x08 && f[13] == 0x00);
    let ip = f.skip(14);
    assert(ip =~= iph + tcp);
    assert(ip.subrange(16, 20) =~= iph.subrange(16, 20));
    assert(be32_value(be32_bytes(our_ip)) == our_ip);
    assert(ipv4_payload(ip) =~= tcp);
}

/// A frame built toward `our_ip` is read back by the reply reader as its
/// flags say, for the frame's source port: the two ends agree on where the
/// addresses, the ports and the flags stand.
pub proof fn law_built_frame_reads_back(c: ScanConfig, our_ip: u32, port: u16, flags: u8, seq_num: u32)
    ensures
        reply_of(probe_frame(c, our_ip, port, flags, seq_num), our_ip) == reply_for_flags(
            c.src_port,
            flags,
        ),
{
    let eth = ethernet_header(c);
    let iph = ipv4_header(c.src_ip, our_ip);
    let tcp = tcp_header(c.src_ip, our_ip, c.src_port, port, seq_num, flags);
    assert(eth.len() == 14 && eth[12] == 0x08 && eth[13] == 0x00);
    lemma_ipv4_header_fields(c.src_ip, our_ip);
    lemma_tcp_header_fields(c.src_ip, our_ip, c.src_port, port, seq_num, flags);
    lemma_reply_of_parts(eth, iph, tcp, our_ip);
    assert((tcp[0] as nat * 256 + tcp[1] as nat) as u16 == c.src_port);
}

} // verus!
