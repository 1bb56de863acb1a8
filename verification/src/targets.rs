//! Scan targets: addresses, networks, octet-range notation and exclusions.
use vstd::prelude::*;
use vstd::arithmetic::power2::{pow2, lemma_pow2_unfold, lemma_pow2_pos};
use vstd::arithmetic::div_mod::{lemma_fundamental_div_mod, lemma_mod_bound};
use crate::text::{
    chars_of, decimal, has_char, push_decimal, find_char, lemma_split_once_at, parse_unsigned, parse_unsigned_range, push_range,
    split_once, split_ranges, split_spec, string_of,
};

verus! {

/// An IP address: IPv4 as its 32-bit value, IPv6 as its 128-bit value.
#[derive(PartialEq, Eq, Structural, Clone, Copy, Debug)]
pub enum IpAddress {
    V4(u32),
    V6(u128),
}

/// An address with a prefix length, as `ipnetwork::IpNetwork` holds it:
/// the address is kept as given, not masked.
#[derive(PartialEq, Eq, Structural, Clone, Copy, Debug)]
pub struct Network {
    pub addr: IpAddress,
    pub prefix: u8,
}

/// The IPv4 address `a.b.c.d`.
pub open spec fn v4_value(a: nat, b: nat, c: nat, d: nat) -> nat {
    a * 16777216 + b * 65536 + c * 256 + d
}

// ---------------------------------------------------------------------------
// Octet-range notation, such as `10.0.0.1-50` or `192.168.-.1,2`
// ---------------------------------------------------------------------------

/// The octets `a..=b`, in increasing order.
pub open spec fn octet_range(a: nat, b: nat) -> Seq<u8> {
    Seq::new((b + 1 - a) as nat, |i: int| (a + i) as u8)
}

/// What one comma-separated piece of an octet field stands for; an empty
/// range end stands for 0 (start) or 255 (end).
pub open spec fn parse_octet_piece(piece: Seq<char>) -> Result<Seq<u8>, Seq<char>> {
    match split_once(piece, '-') {
        Some((a, b)) => {
            let start = if a.len() == 0 {
                Some(0nat)
            } else {
                parse_unsigned(a, 255)
            };
            let end = if b.len() == 0 {
                Some(255nat)
            } else {
                parse_unsigned(b, 255)
            };
            match start {
                None => Err("Bad start octet"@),
                Some(s) => match end {
                    None => Err("Bad end octet"@),
                    Some(e) => if s > e {
                        Err("Invalid range: "@ + piece)
                    } else {
                        Ok(octet_range(s, e))
                    },
                },
            }
        },
        None => match parse_unsigned(piece, 255) {
            None => Err("Invalid octet: "@ + piece),
            Some(n) => Ok(seq![n as u8]),
        },
    }
}

/// The pieces parsed in order; the first piece in error decides the error.
pub open spec fn parse_octet_pieces(pieces: Seq<Seq<char>>) -> Result<Seq<u8>, Seq<char>>
    decreases pieces.len(),
{
    if pieces.len() == 0 {
        Ok(Seq::empty())
    } else {
        match parse_octet_pieces(pieces.drop_last()) {
            Err(e) => Err(e),
            Ok(done) => match parse_octet_piece(pieces.last()) {
                Err(e) => Err(e),
                Ok(more) => Ok(done + more),
            },
        }
    }
}

/// What one dot-separated field of octet-range notation stands for: `-`
/// alone is every octet, otherwise a comma-separated list of octets and
/// ranges.
pub open spec fn parse_octet_part_spec(part: Seq<char>) -> Result<Seq<u8>, Seq<char>> {
    if part == seq!['-'] {
        Ok(octet_range(0, 255))
    } else {
        parse_octet_pieces(split_spec(part, ','))
    }
}

proof fn lemma_octet_error_stays(pieces: Seq<Seq<char>>, k: int, e: Seq<char>)
    requires
        0 <= k <= pieces.len(),
        parse_octet_pieces(pieces.take(k)) == Err::<Seq<u8>, Seq<char>>(e),
    ensures
        parse_octet_pieces(pieces) == Err::<Seq<u8>, Seq<char>>(e),
    decreases pieces.len() - k,
{
    if k < pieces.len() {
        assert(pieces.take(k + 1).drop_last() =~= pieces.take(k));
        lemma_octet_error_stays(pieces, k + 1, e);
    } else {
        assert(pieces.take(k) =~= pieces);
    }
}

/// Appends the octets `a..=b` to `out`.
fn push_octet_range(out: &mut Vec<u8>, a: u32, b: u32)
    requires
        a <= b <= 255,
    ensures
        final(out)@ == old(out)@ + octet_range(a as nat, b as nat),
{
    let ghost before = out@;
    let mut x = a;
    while x <= b
        invariant
            a <= x <= b + 1,
            b <= 255,
            out@ == before + octet_range(a as nat, b as nat).take(x - a),
        decreases b + 1 - x,
    {
        out.push(x as u8);
        assert(octet_range(a as nat, b as nat).take(x + 1 - a) =~= octet_range(
            a as nat,
            b as nat,
        ).take(x - a).push(x as u8));
        x = x + 1;
    }
    assert(octet_range(a as nat, b as nat).take(x - a) =~= octet_range(a as nat, b as nat));
}

/// Parses the piece `v[lo..hi]` and appends its octets to `out`.
fn parse_octet_piece_into(v: &Vec<char>, lo: usize, hi: usize, out: &mut Vec<u8>) -> (r: Result<
    (),
    String,
>)
    requires
        lo <= hi <= v@.len(),
    ensures
        match parse_octet_piece(v@.subrange(lo as int, hi as int)) {
            Ok(os) => r is Ok && final(out)@ == old(out)@ + os,
            Err(msg) => r matches Err(e) && e@ == msg,
        },
{
    let ghost piece = v@.subrange(lo as int, hi as int);
    match find_char(v, lo, hi, '-') {
        Some(i) => {
            proof {
                lemma_split_once_at(piece, '-', i - lo);
                assert(piece.take(i - lo) =~= v@.subrange(lo as int, i as int));
                assert(piece.skip(i - lo + 1) =~= v@.subrange(i + 1, hi as int));
            }
            let start: u32 = if i == lo {
                0
            } else {
                match parse_unsigned_range(v, lo, i, 255) {
                    Some(n) => n,
                    None => {
                        return Err(string_of("Bad start octet"));
                    },
                }
            };
            let end: u32 = if i + 1 == hi {
                255
            } else {
                match parse_unsigned_range(v, i + 1, hi, 255) {
                    Some(n) => n,
                    None => {
                        return Err(string_of("Bad end octet"));
                    },
                }
            };
            if start > end {
                let mut e = string_of("Invalid range: ");
                push_range(&mut e, v, lo, hi);
                return Err(e);
            }
            push_octet_range(out, start, end);
            Ok(())
        },
        None => {
            match parse_unsigned_range(v, lo, hi, 255) {
                Some(n) => {
                    out.push(n as u8);
                    assert(out@ =~= old(out)@ + seq![n as u8]);
                    Ok(())
                },
                None => {
                    let mut e = string_of("Invalid octet: ");
                    push_range(&mut e, v, lo, hi);
                    Err(e)
                },
            }
        },
    }
}

/// Parses one dot-separated field `v[lo..hi]` of octet-range notation.
fn parse_octet_field(v: &Vec<char>, lo: usize, hi: usize) -> (r: Result<Vec<u8>, String>)
    requires
        lo <= hi <= v@.len(),
    ensures
        match parse_octet_part_spec(v@.subrange(lo as int, hi as int)) {
            Ok(os) => r matches Ok(o) && o@ == os,
            Err(msg) => r matches Err(e) && e@ == msg,
        },
{
    let mut field: Vec<char> = Vec::new();
    let mut i = lo;
    while i < hi
        invariant
            lo <= i <= hi <= v@.len(),
            field@ == v@.subrange(lo as int, i as int),
        decreases hi - i,
    {
        field.push(v[i]);
        assert(v@.subrange(lo as int, i + 1) =~= v@.subrange(lo as int, i as int).push(v@[i as int]));
        i = i + 1;
    }
    parse_octet_part_chars(&field)
}

/// Parses one field of octet-range notation, given as characters.
fn parse_octet_part_chars(v: &Vec<char>) -> (r: Result<Vec<u8>, String>)
    ensures
        match parse_octet_part_spec(v@) {
            Ok(os) => r matches Ok(o) && o@ == os,
            Err(msg) => r matches Err(e) && e@ == msg,
        },
{
    let mut numbers: Vec<u8> = Vec::new();
    if v.len() == 1 && v[0] == '-' {
        assert(v@ =~= seq!['-']);
        push_octet_range(&mut numbers, 0, 255);
        assert(numbers@ =~= octet_range(0, 255));
        return Ok(numbers);
    }
    assert(v@ != seq!['-']);
    let ranges = split_ranges(v, ',');
    let ghost pieces = split_spec(v@, ',');
    let mut k: usize = 0;
    while k < ranges.len()
        invariant
            v@ != seq!['-'],
            pieces == split_spec(v@, ','),
            ranges@.len() == pieces.len(),
            forall|j: int|
                0 <= j < ranges@.len() ==> {
                    &&& (#[trigger] ranges@[j]).0 <= ranges@[j].1 <= v@.len()
                    &&& v@.subrange(ranges@[j].0 as int, ranges@[j].1 as int) == pieces[j]
                },
            k <= ranges@.len(),
            parse_octet_pieces(pieces.take(k as int)) == Ok::<Seq<u8>, Seq<char>>(numbers@),
        decreases ranges@.len() - k,
    {
        let (lo, hi) = ranges[k];
        assert(pieces.take(k + 1).drop_last() =~= pieces.take(k as int));
        assert(pieces.take(k + 1).last() == pieces[k as int]);
        match parse_octet_piece_into(v, lo, hi, &mut numbers) {
            Ok(()) => {},
            Err(e) => {
                proof {
                    assert(v@.subrange(lo as int, hi as int) == pieces[k as int]);
                    assert(parse_octet_piece(pieces[k as int]) == Err::<Seq<u8>, Seq<char>>(e@));
                    assert(parse_octet_pieces(pieces.take(k + 1)) == Err::<Seq<u8>, Seq<char>>(
                        e@,
                    ));
                    lemma_octet_error_stays(pieces, k + 1, e@);
                }
                return Err(e);
            },
        }
        k = k + 1;
    }
    assert(pieces.take(k as int) =~= pieces);
    Ok(numbers)
}

/// Parses one field of octet-range notation: `-` alone for every octet,
/// otherwise a comma-separated list of octets and ranges `a-b` (an empty
/// end standing for 0 or 255).
pub fn parse_octet_part(part: &str) -> (r: Result<Vec<u8>, String>)
    ensures
        match parse_octet_part_spec(part@) {
            Ok(os) => r matches Ok(o) && o@ == os,
            Err(msg) => r matches Err(e) && e@ == msg,
        },
{
    let v = chars_of(part);
    parse_octet_part_chars(&v)
}

/// Every `h * weight + t` for `h` in `heads` and `t` in `tails`, `heads`
/// in the outer position.
pub open spec fn cross(heads: Seq<u8>, tails: Seq<u32>, weight: nat) -> Seq<u32>
    decreases heads.len(),
{
    if heads.len() == 0 {
        Seq::empty()
    } else {
        cross(heads.drop_last(), tails, weight) + tails.map_values(
            |t: u32| (heads.last() * weight + t) as u32,
        )
    }
}

/// The addresses that four octet lists stand for, first octet outermost.
pub open spec fn octet_addresses(o1: Seq<u8>, o2: Seq<u8>, o3: Seq<u8>, o4: Seq<u8>) -> Seq<u32> {
    cross(o1, cross(o2, cross(o3, o4.map_values(|d: u8| d as u32), 256), 65536), 16777216)
}

/// The IPv4 addresses with the given values.
pub open spec fn v4_addresses(vals: Seq<u32>) -> Seq<IpAddress> {
    vals.map_values(|x: u32| IpAddress::V4(x))
}

/// What octet-range notation stands for: exactly four dot-separated fields,
/// each parsed in order (the first in error decides the error).
pub open spec fn parse_octet_range_spec(target: Seq<char>) -> Result<Seq<IpAddress>, Seq<char>> {
    let fields = split_spec(target, '.');
    if fields.len() != 4 {
        Err("Octet ranges must have exactly 4 parts separated by dots"@)
    } else {
        match parse_octet_part_spec(fields[0]) {
            Err(e) => Err(e),
            Ok(o1) => match parse_octet_part_spec(fields[1]) {
                Err(e) => Err(e),
                Ok(o2) => match parse_octet_part_spec(fields[2]) {
                    Err(e) => Err(e),
                    Ok(o3) => match parse_octet_part_spec(fields[3]) {
                        Err(e) => Err(e),
                        Ok(o4) => Ok(v4_addresses(octet_addresses(o1, o2, o3, o4))),
                    },
                },
            },
        }
    }
}

/// Every `h * weight + t`, `heads` outermost.
fn cross_exec(heads: &Vec<u8>, tails: &Vec<u32>, weight: u32) -> (r: Vec<u32>)
    requires
        weight == 256 || weight == 65536 || weight == 16777216,
        forall|i: int| 0 <= i < tails@.len() ==> (#[trigger] tails@[i]) < weight,
    ensures
        r@ == cross(heads@, tails@, weight as nat),
{
    let mut r: Vec<u32> = Vec::new();
    let mut i: usize = 0;
    while i < heads.len()
        invariant
            i <= heads@.len(),
            weight == 256 || weight == 65536 || weight == 16777216,
            forall|k: int| 0 <= k < tails@.len() ==> (#[trigger] tails@[k]) < weight,
            r@ == cross(heads@.take(i as int), tails@, weight as nat),
        decreases heads@.len() - i,
    {
        let h = heads[i];
        assert(heads@.take(i + 1).drop_last() =~= heads@.take(i as int));
        let ghost before = r@;
        let mut j: usize = 0;
        while j < tails.len()
            invariant
                j <= tails@.len(),
                h < 256,
                weight == 256 || weight == 65536 || weight == 16777216,
                forall|k: int| 0 <= k < tails@.len() ==> (#[trigger] tails@[k]) < weight,
                r@ == before + tails@.take(j as int).map_values(
                    |t: u32| (h * weight + t) as u32,
                ),
            decreases tails@.len() - j,
        {
            let t = tails[j];
            assert(h as int * weight as int + t < 4294967296) by (nonlinear_arith)
                requires
                    h < 256,
                    t < weight,
                    weight <= 16777216,
            ;
            r.push(((h as u32) * weight + t) as u32);
            assert(tails@.take(j + 1).map_values(|t: u32| (h * weight + t) as u32) =~= tails@.take(
                j as int,
            ).map_values(|t: u32| (h * weight + t) as u32).push((h * weight + t) as u32));
            j = j + 1;
        }
        assert(tails@.take(j as int) =~= tails@);
        assert(heads@.take(i + 1).last() == h);
        i = i + 1;
    }
    assert(heads@.take(i as int) =~= heads@);
    r
}

proof fn lemma_cross_bound(heads: Seq<u8>, tails: Seq<u32>, weight: nat, bound: nat)
    requires
        forall|i: int| 0 <= i < tails.len() ==> (#[trigger] tails[i]) < weight,
        weight * 256 == bound,
        bound <= 4294967296,
    ensures
        forall|i: int|
            0 <= i < cross(heads, tails, weight).len() ==> (#[trigger] cross(
                heads,
                tails,
                weight,
            )[i]) < bound,
    decreases heads.len(),
{
    if heads.len() > 0 {
        lemma_cross_bound(heads.drop_last(), tails, weight, bound);
        let c = cross(heads, tails, weight);
        let d = cross(heads.drop_last(), tails, weight);
        let h = heads.last();
        assert forall|i: int| 0 <= i < c.len() implies (#[trigger] c[i]) < bound by {
            if i >= d.len() {
                let t = tails[i - d.len()];
                assert(h * weight + t < bound) by (nonlinear_arith)
                    requires
                        h < 256,
                        t < weight,
                        weight * 256 == bound,
                ;
            }
        }
    }
}

/// Expands octet-range notation such as `192.168.1.1-50` into addresses:
/// exactly four dot-separated fields, each as `parse_octet_part` reads it,
/// combined with the first field outermost.
pub fn parse_octet_range(target: &str) -> (r: Result<Vec<IpAddress>, String>)
    ensures
        match parse_octet_range_spec(target@) {
            Ok(ips) => r matches Ok(v) && v@ == ips,
            Err(msg) => r matches Err(e) && e@ == msg,
        },
{
    let v = chars_of(target);
    let fields = split_ranges(&v, '.');
    if fields.len() != 4 {
        return Err(string_of("Octet ranges must have exactly 4 parts separated by dots"));
    }
    let (l1, h1) = fields[0];
    let (l2, h2) = fields[1];
    let (l3, h3) = fields[2];
    let (l4, h4) = fields[3];
    let o1 = parse_octet_field(&v, l1, h1)?;
    let o2 = parse_octet_field(&v, l2, h2)?;
    let o3 = parse_octet_field(&v, l3, h3)?;
    let o4 = parse_octet_field(&v, l4, h4)?;
    let mut last: Vec<u32> = Vec::new();
    let mut i: usize = 0;
    while i < o4.len()
        invariant
            i <= o4@.len(),
            last@ == o4@.take(i as int).map_values(|d: u8| d as u32),
        decreases o4@.len() - i,
    {
        last.push(o4[i] as u32);
        assert(o4@.take(i + 1).map_values(|d: u8| d as u32) =~= o4@.take(i as int).map_values(
            |d: u8| d as u32,
        ).push(o4@[i as int] as u32));
        i = i + 1;
    }
    assert(o4@.take(i as int) =~= o4@);
    let c3 = cross_exec(&o3, &last, 256);
    proof {
        lemma_cross_bound(o3@, last@, 256, 65536);
    }
    let c2 = cross_exec(&o2, &c3, 65536);
    proof {
        lemma_cross_bound(o2@, c3@, 65536, 16777216);
    }
    let c1 = cross_exec(&o1, &c2, 16777216);
    let mut ips: Vec<IpAddress> = Vec::new();
    let mut k: usize = 0;
    while k < c1.len()
        invariant
            k <= c1@.len(),
            ips@ == v4_addresses(c1@.take(k as int)),
        decreases c1@.len() - k,
    {
        ips.push(IpAddress::V4(c1[k]));
        assert(v4_addresses(c1@.take(k + 1)) =~= v4_addresses(c1@.take(k as int)).push(
            IpAddress::V4(c1@[k as int]),
        ));
        k = k + 1;
    }
    assert(c1@.take(k as int) =~= c1@);
    Ok(ips)
}

// ---------------------------------------------------------------------------
// Networks
// ---------------------------------------------------------------------------

/// The prefix is within the address family's width, as `IpNetwork::new` demands.
pub open spec fn valid_network(net: Network) -> bool {
    match net.addr {
        IpAddress::V4(_) => net.prefix <= 32,
        IpAddress::V6(_) => net.prefix <= 128,
    }
}

/// The number of addresses of a network: two to the number of host bits.
pub open spec fn block_size(net: Network) -> nat {
    match net.addr {
        IpAddress::V4(_) => pow2((32 - net.prefix) as nat),
        IpAddress::V6(_) => pow2((128 - net.prefix) as nat),
    }
}

/// The numeric value of an address.
pub open spec fn addr_value(a: IpAddress) -> nat {
    match a {
        IpAddress::V4(x) => x as nat,
        IpAddress::V6(x) => x as nat,
    }
}

/// The lowest address of a network: its address with the host bits cleared.
pub open spec fn network_start(net: Network) -> nat {
    (addr_value(net.addr) - addr_value(net.addr) % block_size(net)) as nat
}

/// `ip` is in `net`: same family, and the same leading `prefix` bits
/// (`IpNetwork::contains`).
pub open spec fn in_network(net: Network, ip: IpAddress) -> bool {
    match (net.addr, ip) {
        (IpAddress::V4(a), IpAddress::V4(b)) => a as nat / block_size(net) == b as nat / block_size(
            net,
        ),
        (IpAddress::V6(a), IpAddress::V6(b)) => a as nat / block_size(net) == b as nat / block_size(
            net,
        ),
        _ => false,
    }
}

/// Every address of a network, lowest first (`IpNetwork::iter`).
pub open spec fn network_addresses(net: Network) -> Seq<IpAddress> {
    match net.addr {
        IpAddress::V4(_) => Seq::new(
            block_size(net),
            |i: int| IpAddress::V4((network_start(net) + i) as u32),
        ),
        IpAddress::V6(_) => Seq::new(
            block_size(net),
            |i: int| IpAddress::V6((network_start(net) + i) as u128),
        ),
    }
}

/// The addresses of several networks, one network after the other.
pub open spec fn all_network_addresses(nets: Seq<Network>) -> Seq<IpAddress>
    decreases nets.len(),
{
    if nets.len() == 0 {
        Seq::empty()
    } else {
        all_network_addresses(nets.drop_last()) + network_addresses(nets.last())
    }
}

/// Two to the power `e`, for `e` below 128.
fn pow2_u128(e: u32) -> (r: u128)
    requires
        e < 128,
    ensures
        r as nat == pow2(e as nat),
        r > 0,
{
    let mut r: u128 = 1;
    let mut i: u32 = 0;
    proof {
        vstd::arithmetic::power2::lemma_pow2(0);
        vstd::arithmetic::power::lemma_pow0(2);
    }
    while i < e
        invariant
            i <= e < 128,
            r as nat == pow2(i as nat),
        decreases e - i,
    {
        proof {
            lemma_pow2_unfold((i + 1) as nat);
            vstd::arithmetic::power2::lemma_pow2_strictly_increases((i + 1) as nat, 128);
            vstd::arithmetic::power2::lemma2_to64();
            vstd::arithmetic::power2::lemma_pow2_adds(64, 64);
        }
        r = r * 2;
        i = i + 1;
    }
    proof {
        lemma_pow2_pos(e as nat);
    }
    r
}

/// Whether `ip` is in `net` (`IpNetwork::contains`).
pub fn network_contains(net: &Network, ip: IpAddress) -> (r: bool)
    requires
        valid_network(*net),
    ensures
        r == in_network(*net, ip),
{
    match (net.addr, ip) {
        (IpAddress::V4(a), IpAddress::V4(b)) => {
            let block = pow2_u128((32 - net.prefix) as u32);
            (a as u128) / block == (b as u128) / block
        },
        (IpAddress::V6(a), IpAddress::V6(b)) => {
            if net.prefix == 0 {
                proof {
                    vstd::arithmetic::power2::lemma2_to64();
                    vstd::arithmetic::power2::lemma_pow2_adds(64, 64);
                    vstd::arithmetic::div_mod::lemma_basic_div(a as int, pow2(128) as int);
                    vstd::arithmetic::div_mod::lemma_basic_div(b as int, pow2(128) as int);
                }
                true
            } else {
                let block = pow2_u128((128 - net.prefix) as u32);
                a / block == b / block
            }
        },
        _ => false,
    }
}

proof fn lemma_start_fits(a: nat, block: nat, total: nat)
    requires
        a < total,
        block > 0,
        total % block == 0,
    ensures
        (a - a % block) + block <= total,
        a - a % block >= 0,
{
    lemma_fundamental_div_mod(a as int, block as int);
    lemma_fundamental_div_mod(total as int, block as int);
    lemma_mod_bound(a as int, block as int);
    let q = a as int / block as int;
    let m = total as int / block as int;
    assert(q < m) by (nonlinear_arith)
        requires
            a == block * q + a % block,
            total == block * m,
            0 <= a % block,
            a < total,
            block > 0,
    ;
    assert(block * q + block <= block * m) by (nonlinear_arith)
        requires
            q < m,
            block > 0,
    ;
}

proof fn lemma_pow2_divides(small: nat, big: nat)
    requires
        small <= big,
    ensures
        pow2(big) % pow2(small) == 0,
        pow2(small) > 0,
{
    vstd::arithmetic::power2::lemma_pow2_adds(small, (big - small) as nat);
    lemma_pow2_pos(small);
    lemma_pow2_pos((big - small) as nat);
    vstd::arithmetic::div_mod::lemma_mod_multiples_basic(
        pow2((big - small) as nat) as int,
        pow2(small) as int,
    );
    assert(pow2((big - small) as nat) * pow2(small) == pow2(small) * pow2((big - small) as nat))
        by (nonlinear_arith);
}

/// Appends every address of `net` to `out`, lowest first.
fn push_network_addresses(net: &Network, out: &mut Vec<IpAddress>)
    requires
        valid_network(*net),
        net.addr is V6 ==> net.prefix >= 1,
    ensures
        final(out)@ == old(out)@ + network_addresses(*net),
{
    let ghost before = out@;
    match net.addr {
        IpAddress::V4(a) => {
            let block: u64 = pow2_u128((32 - net.prefix) as u32) as u64;
            proof {
                vstd::arithmetic::power2::lemma2_to64();
                lemma_pow2_divides((32 - net.prefix) as nat, 32);
                lemma_start_fits(a as nat, block as nat, pow2(32));
                lemma_mod_bound(a as int, block as int);
            }
            let start: u64 = (a as u64) - (a as u64) % block;
            let mut i: u64 = 0;
            while i < block
                invariant
                    net.addr == IpAddress::V4(a),
                    block as nat == block_size(*net),
                    start as nat == network_start(*net),
                    start + block <= 4294967296,
                    i <= block,
                    out@ == before + network_addresses(*net).take(i as int),
                decreases block - i,
            {
                out.push(IpAddress::V4((start + i) as u32));
                assert(network_addresses(*net).take(i + 1) =~= network_addresses(*net).take(
                    i as int,
                ).push(IpAddress::V4((start + i) as u32)));
                i = i + 1;
            }
            assert(network_addresses(*net).take(i as int) =~= network_addresses(*net));
        },
        IpAddress::V6(a) => {
            let block: u128 = pow2_u128((128 - net.prefix) as u32);
            proof {
                vstd::arithmetic::power2::lemma2_to64();
                vstd::arithmetic::power2::lemma_pow2_adds(64, 64);
                lemma_pow2_divides((128 - net.prefix) as nat, 128);
                lemma_start_fits(a as nat, block as nat, pow2(128));
                lemma_mod_bound(a as int, block as int);
            }
            let start: u128 = a - a % block;
            let mut i: u128 = 0;
            while i < block
                invariant
                    net.addr == IpAddress::V6(a),
                    block as nat == block_size(*net),
                    start as nat == network_start(*net),
                    start + block <= 0x1_0000_0000_0000_0000_0000_0000_0000_0000,
                    i <= block,
                    out@ == before + network_addresses(*net).take(i as int),
                decreases block - i,
            {
                out.push(IpAddress::V6(start + i));
                assert(network_addresses(*net).take(i + 1) =~= network_addresses(*net).take(
                    i as int,
                ).push(IpAddress::V6((start + i) as u128)));
                i = i + 1;
            }
            assert(network_addresses(*net).take(i as int) =~= network_addresses(*net));
        },
    }
}

/// Every address of every network, one network after the other.
pub fn expand_networks(nets: &Vec<Network>) -> (r: Vec<IpAddress>)
    requires
        forall|i: int|
            0 <= i < nets@.len() ==> valid_network(#[trigger] nets@[i]) && (nets@[i].addr is V6
                ==> nets@[i].prefix >= 1),
    ensures
        r@ == all_network_addresses(nets@),
{
    let mut r: Vec<IpAddress> = Vec::new();
    let mut k: usize = 0;
    while k < nets.len()
        invariant
            k <= nets@.len(),
            forall|i: int|
                0 <= i < nets@.len() ==> valid_network(#[trigger] nets@[i]) && (nets@[i].addr is V6
                    ==> nets@[i].prefix >= 1),
            r@ == all_network_addresses(nets@.take(k as int)),
        decreases nets@.len() - k,
    {
        assert(nets@.take(k + 1).drop_last() =~= nets@.take(k as int));
        push_network_addresses(&nets[k], &mut r);
        k = k + 1;
    }
    assert(nets@.take(k as int) =~= nets@);
    r
}

// ---------------------------------------------------------------------------
// Exclusions
// ---------------------------------------------------------------------------

/// Some network of `nets` holds `ip`.
pub open spec fn excluded_by(nets: Seq<Network>, ip: IpAddress) -> bool {
    exists|i: int| 0 <= i < nets.len() && in_network(#[trigger] nets[i], ip)
}

/// The addresses of `targets` that no network of `exclusions` holds, in order.
pub open spec fn without_excluded(targets: Seq<IpAddress>, exclusions: Seq<Network>) -> Seq<
    IpAddress,
>
    decreases targets.len(),
{
    if targets.len() == 0 {
        Seq::empty()
    } else {
        let done = without_excluded(targets.drop_last(), exclusions);
        if excluded_by(exclusions, targets.last()) {
            done
        } else {
            done.push(targets.last())
        }
    }
}

/// Whether some network of `nets` holds `ip`.
pub fn is_excluded(nets: &Vec<Network>, ip: IpAddress) -> (r: bool)
    requires
        forall|i: int| 0 <= i < nets@.len() ==> valid_network(#[trigger] nets@[i]),
    ensures
        r == excluded_by(nets@, ip),
{
    let mut i: usize = 0;
    while i < nets.len()
        invariant
            i <= nets@.len(),
            forall|k: int| 0 <= k < nets@.len() ==> valid_network(#[trigger] nets@[k]),
            forall|k: int| 0 <= k < i ==> !in_network(#[trigger] nets@[k], ip),
        decreases nets@.len() - i,
    {
        if network_contains(&nets[i], ip) {
            return true;
        }
        i = i + 1;
    }
    false
}

/// Drops every target that one of the exclusion networks holds, keeping
/// the order of the rest.
pub fn apply_exclusions(targets: Vec<IpAddress>, exclusions: &Vec<Network>) -> (r: Vec<IpAddress>)
    requires
        forall|i: int| 0 <= i < exclusions@.len() ==> valid_network(#[trigger] exclusions@[i]),
    ensures
        r@ == without_excluded(targets@, exclusions@),
{
    let mut r: Vec<IpAddress> = Vec::new();
    let mut k: usize = 0;
    while k < targets.len()
        invariant
            k <= targets@.len(),
            forall|i: int| 0 <= i < exclusions@.len() ==> valid_network(#[trigger] exclusions@[i]),
            r@ == without_excluded(targets@.take(k as int), exclusions@),
        decreases targets@.len() - k,
    {
        assert(targets@.take(k + 1).drop_last() =~= targets@.take(k as int));
        let ip = targets[k];
        if !is_excluded(exclusions, ip) {
            r.push(ip);
        }
        k = k + 1;
    }
    assert(targets@.take(k as int) =~= targets@);
    r
}

/// The public DNS resolvers that are never scanned, each as a single-address
/// network: Cloudflare, Google, Quad9, OpenDNS and Verisign.
pub open spec fn sensitive_dns_servers() -> Seq<(nat, nat, nat, nat)> {
    seq![
        (1, 1, 1, 1),
        (1, 0, 0, 1),
        (8, 8, 8, 8),
        (8, 8, 4, 4),
        (9, 9, 9, 9),
        (149, 112, 112, 112),
        (208, 67, 222, 222),
        (208, 67, 220, 220),
        (64, 6, 64, 6),
        (64, 6, 65, 6),
    ]
}

/// The single-address networks of the public DNS resolvers that are never scanned.
pub fn sensitive_dns_exclusions() -> (r: Vec<Network>)
    ensures
        r@.len() == sensitive_dns_servers().len(),
        forall|i: int|
            0 <= i < r@.len() ==> {
                let (a, b, c, d) = sensitive_dns_servers()[i];
                #[trigger] r@[i] == Network {
                    addr: IpAddress::V4(v4_value(a, b, c, d) as u32),
                    prefix: 32,
                }
            },
{
    let mut r: Vec<Network> = Vec::new();
    r.push(Network { addr: IpAddress::V4(0x01010101), prefix: 32 });
    r.push(Network { addr: IpAddress::V4(0x01000001), prefix: 32 });
    r.push(Network { addr: IpAddress::V4(0x08080808), prefix: 32 });
    r.push(Network { addr: IpAddress::V4(0x08080404), prefix: 32 });
    r.push(Network { addr: IpAddress::V4(0x09090909), prefix: 32 });
    r.push(Network { addr: IpAddress::V4(0x95707070), prefix: 32 });
    r.push(Network { addr: IpAddress::V4(0xD043DEDE), prefix: 32 });
    r.push(Network { addr: IpAddress::V4(0xD043DCDC), prefix: 32 });
    r.push(Network { addr: IpAddress::V4(0x40064006), prefix: 32 });
    r.push(Network { addr: IpAddress::V4(0x40064106), prefix: 32 });
    r
}

/// Excluding keeps exactly the targets outside every exclusion network:
/// each kept address was a target and no exclusion network holds it, and
/// each target that no exclusion network holds is kept.
pub proof fn law_exclusion_keeps_exactly_the_outside(targets: Seq<IpAddress>, exclusions: Seq<Network>)
    ensures
        forall|i: int|
            0 <= i < without_excluded(targets, exclusions).len() ==> targets.contains(
                #[trigger] without_excluded(targets, exclusions)[i],
            ) && !excluded_by(exclusions, without_excluded(targets, exclusions)[i]),
        forall|ip: IpAddress|
            targets.contains(ip) && !excluded_by(exclusions, ip) ==> #[trigger] without_excluded(
                targets,
                exclusions,
            ).contains(ip),
    decreases targets.len(),
{
    if targets.len() > 0 {
        let rest = targets.drop_last();
        law_exclusion_keeps_exactly_the_outside(rest, exclusions);
        let w = without_excluded(targets, exclusions);
        let wr = without_excluded(rest, exclusions);
        assert forall|i: int| 0 <= i < w.len() implies targets.contains(#[trigger] w[i])
            && !excluded_by(exclusions, w[i]) by {
            if i < wr.len() {
                assert(w[i] == wr[i]);
                assert(rest.contains(wr[i]));
                let j = choose|j: int| 0 <= j < rest.len() && rest[j] == wr[i];
                assert(targets[j] == rest[j]);
            } else {
                assert(w[i] == targets.last());
                assert(targets[targets.len() - 1] == targets.last());
            }
        }
        assert forall|ip: IpAddress| targets.contains(ip) && !excluded_by(exclusions, ip) implies #[trigger] w.contains(
            ip,
        ) by {
            let j = choose|j: int| 0 <= j < targets.len() && targets[j] == ip;
            if j < targets.len() - 1 {
                assert(rest[j] == ip);
                assert(rest.contains(ip));
                assert(wr.contains(ip));
                let k = choose|k: int| 0 <= k < wr.len() && wr[k] == ip;
                assert(w[k] == wr[k]);
                assert(w[k] == ip);
            } else {
                assert(w[w.len() - 1] == ip);
            }
        }
    }
}

/// The public DNS resolvers are never scanned: once the sensitive networks
/// are excluded, no remaining address is one of them.
pub proof fn law_sensitive_servers_never_kept(targets: Seq<IpAddress>, nets: Seq<Network>)
    requires
        nets.len() == sensitive_dns_servers().len(),
        forall|i: int|
            0 <= i < nets.len() ==> {
                let (a, b, c, d) = sensitive_dns_servers()[i];
                #[trigger] nets[i] == Network { addr: IpAddress::V4(v4_value(a, b, c, d) as u32), prefix: 32 }
            },
    ensures
        forall|i: int, k: int|
            0 <= i < without_excluded(targets, nets).len() && 0 <= k < nets.len() ==> #[trigger] without_excluded(
                targets,
                nets,
            )[i] != (#[trigger] nets[k]).addr,
{
    law_exclusion_keeps_exactly_the_outside(targets, nets);
    let w = without_excluded(targets, nets);
    assert forall|i: int, k: int| 0 <= i < w.len() && 0 <= k < nets.len() implies #[trigger] w[i] != (
    #[trigger] nets[k]).addr by {
        if w[i] == nets[k].addr {
            assert(nets[k].addr is V4);
            assert(in_network(nets[k], w[i]));
            assert(excluded_by(nets, w[i]));
        }
    }
}

// ---------------------------------------------------------------------------
// Host and CIDR targets
// ---------------------------------------------------------------------------

/// A target split at its first `/`: the host text and the prefix length
/// after the slash, if any.
pub open spec fn split_target_spec(s: Seq<char>) -> Result<(Seq<char>, Option<u8>), Seq<char>> {
    match split_once(s, '/') {
        Some((host, p)) => match parse_unsigned(p, 255) {
            None => Err("Invalid CIDR number: "@ + p),
            Some(n) => Ok((host, Some(n as u8))),
        },
        None => Ok((s, None)),
    }
}

/// Splits a target such as `10.0.0.0/24` or `example.com` into its host
/// text and its prefix length.
pub fn split_target(ip_raw: &str) -> (r: Result<(String, Option<u8>), String>)
    ensures
        match split_target_spec(ip_raw@) {
            Ok((host, p)) => r matches Ok((h, q)) && h@ == host && q == p,
            Err(msg) => r matches Err(e) && e@ == msg,
        },
{
    let v = chars_of(ip_raw);
    match find_char(&v, 0, v.len(), '/') {
        Some(i) => {
            proof {
                assert(v@.subrange(0, v@.len() as int) =~= v@);
                lemma_split_once_at(v@, '/', i as int);
                assert(v@.take(i as int) =~= v@.subrange(0, i as int));
                assert(v@.skip(i + 1) =~= v@.subrange(i + 1, v@.len() as int));
            }
            match parse_unsigned_range(&v, i + 1, v.len(), 255) {
                Some(n) => Ok((crate::text::string_of_range(&v, 0, i), Some(n as u8))),
                None => {
                    let mut e = string_of("Invalid CIDR number: ");
                    push_range(&mut e, &v, i + 1, v.len());
                    Err(e)
                },
            }
        },
        None => {
            assert(v@.subrange(0, v@.len() as int) =~= v@);
            Ok((crate::text::string_of_chars(&v), None))
        },
    }
}

/// The index of the first IPv4 address of `s`, or -1.
pub open spec fn first_v4_index(s: Seq<IpAddress>) -> int
    decreases s.len(),
{
    if s.len() == 0 {
        -1
    } else {
        let f = first_v4_index(s.drop_last());
        if f >= 0 {
            f
        } else if s.last() is V4 {
            s.len() - 1
        } else {
            -1
        }
    }
}

/// The resolved addresses that are kept: with a prefix length, those up to
/// and including the first IPv4 address; without, all of them.
pub open spec fn selected_addresses(s: Seq<IpAddress>, has_prefix: bool) -> Seq<IpAddress> {
    if has_prefix && first_v4_index(s) >= 0 {
        s.take(first_v4_index(s) + 1)
    } else {
        s
    }
}

/// Keeps the resolved addresses of a host name: with a prefix length, the
/// addresses up to and including the first IPv4 one; without, all.
pub fn select_resolved(addrs: &Vec<IpAddress>, has_prefix: bool) -> (r: Vec<IpAddress>)
    ensures
        r@ == selected_addresses(addrs@, has_prefix),
{
    let mut r: Vec<IpAddress> = Vec::new();
    let mut i: usize = 0;
    while i < addrs.len()
        invariant
            i <= addrs@.len(),
            r@ == addrs@.take(i as int),
            has_prefix ==> first_v4_index(addrs@.take(i as int)) == -1,
        decreases addrs@.len() - i,
    {
        let a = addrs[i];
        r.push(a);
        assert(addrs@.take(i + 1).drop_last() =~= addrs@.take(i as int));
        assert(r@ =~= addrs@.take(i + 1));
        if has_prefix {
            if let IpAddress::V4(_) = a {
                proof {
                    assert(first_v4_index(addrs@.take(i + 1)) == i);
                    lemma_first_v4_prefix(addrs@, i + 1);
                }
                return r;
            }
        }
        i = i + 1;
    }
    assert(addrs@.take(i as int) =~= addrs@);
    r
}

proof fn lemma_first_v4_bound(s: Seq<IpAddress>)
    ensures
        -1 <= first_v4_index(s) < s.len(),
    decreases s.len(),
{
    if s.len() > 0 {
        lemma_first_v4_bound(s.drop_last());
    }
}

proof fn lemma_first_v4_prefix(s: Seq<IpAddress>, k: int)
    requires
        0 <= k <= s.len(),
        first_v4_index(s.take(k)) >= 0,
    ensures
        first_v4_index(s) == first_v4_index(s.take(k)),
    decreases s.len() - k,
{
    if k < s.len() {
        assert(s.take(k + 1).drop_last() =~= s.take(k));
        lemma_first_v4_prefix(s, k + 1);
    } else {
        assert(s.take(k) =~= s);
    }
}

/// The network of one resolved address with an optional prefix length; no
/// prefix length means a single address.
pub open spec fn network_for(ip: IpAddress, prefix: Option<u8>) -> Result<Network, Seq<char>> {
    match prefix {
        Some(p) => if ip is V4 && p > 32 {
            Err("Invalid IPv4 prefix: /"@ + decimal(p as nat))
        } else if ip is V6 && p > 128 {
            Err("Invalid IPv6 prefix: /"@ + decimal(p as nat))
        } else {
            Ok(Network { addr: ip, prefix: p })
        },
        None => Ok(
            Network {
                addr: ip,
                prefix: if ip is V4 {
                    32
                } else {
                    128
                },
            },
        ),
    }
}

/// The networks of the resolved addresses, in order and without repeats;
/// the first address in error decides the error.
pub open spec fn networks_of(ips: Seq<IpAddress>, prefix: Option<u8>) -> Result<
    Seq<Network>,
    Seq<char>,
>
    decreases ips.len(),
{
    if ips.len() == 0 {
        Ok(Seq::empty())
    } else {
        match networks_of(ips.drop_last(), prefix) {
            Err(e) => Err(e),
            Ok(done) => match network_for(ips.last(), prefix) {
                Err(e) => Err(e),
                Ok(n) => Ok(
                    if done.contains(n) {
                        done
                    } else {
                        done.push(n)
                    },
                ),
            },
        }
    }
}

/// The networks a host resolved to, or the error for no address at all.
pub open spec fn build_networks_spec(host: Seq<char>, ips: Seq<IpAddress>, prefix: Option<u8>) -> Result<
    Seq<Network>,
    Seq<char>,
> {
    if ips.len() == 0 {
        Err("No IP addresses found for: "@ + host)
    } else {
        networks_of(ips, prefix)
    }
}

proof fn lemma_networks_error_stays(ips: Seq<IpAddress>, prefix: Option<u8>, k: int, e: Seq<char>)
    requires
        0 <= k <= ips.len(),
        networks_of(ips.take(k), prefix) == Err::<Seq<Network>, Seq<char>>(e),
    ensures
        networks_of(ips, prefix) == Err::<Seq<Network>, Seq<char>>(e),
    decreases ips.len() - k,
{
    if k < ips.len() {
        assert(ips.take(k + 1).drop_last() =~= ips.take(k));
        lemma_networks_error_stays(ips, prefix, k + 1, e);
    } else {
        assert(ips.take(k) =~= ips);
    }
}

proof fn lemma_networks_valid(ips: Seq<IpAddress>, prefix: Option<u8>)
    ensures
        networks_of(ips, prefix) matches Ok(nets) ==> forall|i: int|
            0 <= i < nets.len() ==> valid_network(#[trigger] nets[i]),
    decreases ips.len(),
{
    if ips.len() > 0 {
        lemma_networks_valid(ips.drop_last(), prefix);
    }
}

fn prefix_error(text: &str, p: u8) -> (e: String)
    ensures
        e@ == text@ + decimal(p as nat),
{
    let mut e = string_of(text);
    push_decimal(&mut e, p as u64);
    e
}

/// Whether `nets` already holds `n`.
fn holds_network(nets: &Vec<Network>, n: Network) -> (r: bool)
    ensures
        r == nets@.contains(n),
{
    let mut i: usize = 0;
    while i < nets.len()
        invariant
            i <= nets@.len(),
            forall|k: int| 0 <= k < i ==> nets@[k] != n,
        decreases nets@.len() - i,
    {
        if nets[i] == n {
            return true;
        }
        i = i + 1;
    }
    false
}

/// The networks of the addresses a host resolved to, each with the given
/// prefix length (or a single-address network without one), without repeats.
pub fn build_networks(host: &str, ips: &Vec<IpAddress>, prefix: Option<u8>) -> (r: Result<
    Vec<Network>,
    String,
>)
    ensures
        match build_networks_spec(host@, ips@, prefix) {
            Ok(nets) => r matches Ok(v) && v@ == nets,
            Err(msg) => r matches Err(e) && e@ == msg,
        },
{
    if ips.len() == 0 {
        let mut e = string_of("No IP addresses found for: ");
        let hv = chars_of(host);
        push_range(&mut e, &hv, 0, hv.len());
        assert(hv@.subrange(0, hv@.len() as int) =~= hv@);
        return Err(e);
    }
    let mut nets: Vec<Network> = Vec::new();
    let mut k: usize = 0;
    while k < ips.len()
        invariant
            k <= ips@.len(),
            networks_of(ips@.take(k as int), prefix) == Ok::<Seq<Network>, Seq<char>>(nets@),
        decreases ips@.len() - k,
    {
        let ip = ips[k];
        assert(ips@.take(k + 1).drop_last() =~= ips@.take(k as int));
        assert(ips@.take(k + 1).last() == ip);
        let n = match prefix {
            Some(p) => {
                let is_v4 = match ip {
                    IpAddress::V4(_) => true,
                    IpAddress::V6(_) => false,
                };
                if is_v4 && p > 32 {
                    let e = prefix_error("Invalid IPv4 prefix: /", p);
                    proof {
                        lemma_networks_error_stays(ips@, prefix, k + 1, e@);
                    }
                    return Err(e);
                }
                if !is_v4 && p > 128 {
                    let e = prefix_error("Invalid IPv6 prefix: /", p);
                    proof {
                        lemma_networks_error_stays(ips@, prefix, k + 1, e@);
                    }
                    return Err(e);
                }
                Network { addr: ip, prefix: p }
            },
            None => {
                let full: u8 = match ip {
                    IpAddress::V4(_) => 32,
                    IpAddress::V6(_) => 128,
                };
                Network { addr: ip, prefix: full }
            },
        };
        if !holds_network(&nets, n) {
            nets.push(n);
        }
        k = k + 1;
    }
    assert(ips@.take(k as int) =~= ips@);
    Ok(nets)
}

/// How a target string is to be turned into addresses.
pub enum TargetPlan {
    /// Octet-range notation, already expanded.
    Addresses(Vec<IpAddress>),
    /// A host (address text or name) to resolve, with an optional prefix length.
    Lookup { host: String, prefix: Option<u8> },
}

/// A character that octet-range notation is written with.
pub open spec fn is_octet_range_char(c: char) -> bool {
    ('0' <= c <= '9') || c == '.' || c == '-' || c == ','
}

/// Octet-range notation: four dot-separated fields of digits, `-` and `,`,
/// with at least one `-` or `,` (a plain address or a host name is not).
pub open spec fn is_octet_range_form(s: Seq<char>) -> bool {
    &&& has_char(s, '-') || has_char(s, ',')
    &&& forall|i: int| 0 <= i < s.len() ==> is_octet_range_char(#[trigger] s[i])
    &&& split_spec(s, '.').len() == 4
}

/// What a target string stands for before any name is resolved.
pub open spec fn target_plan_matches(input: Seq<char>, r: Result<TargetPlan, String>) -> bool {
    if is_octet_range_form(input) {
        match parse_octet_range_spec(input) {
            Ok(ips) => r matches Ok(TargetPlan::Addresses(v)) && v@ == ips,
            Err(msg) => r matches Err(e) && e@ == msg,
        }
    } else {
        match split_target_spec(input) {
            Ok((host, p)) => r matches Ok(TargetPlan::Lookup { host: h, prefix: q }) && h@ == host
                && q == p,
            Err(msg) => r matches Err(e) && e@ == msg,
        }
    }
}

/// Reads a target string: octet-range notation (see `is_octet_range_form`)
/// is expanded at once; anything else, host names with `-` among them, is
/// a host with an optional `/prefix`.
pub fn plan_targets(input: &str) -> (r: Result<TargetPlan, String>)
    ensures
        target_plan_matches(input@, r),
{
    let v = chars_of(input);
    let dash = find_char(&v, 0, v.len(), '-');
    let comma = find_char(&v, 0, v.len(), ',');
    assert(v@.subrange(0, v@.len() as int) =~= v@);
    let mut all_octet_chars = true;
    let mut i: usize = 0;
    while i < v.len()
        invariant
            i <= v@.len(),
            all_octet_chars == forall|k: int| 0 <= k < i ==> is_octet_range_char(#[trigger] v@[k]),
        decreases v@.len() - i,
    {
        let c = v[i];
        if !(('0' <= c && c <= '9') || c == '.' || c == '-' || c == ',') {
            all_octet_chars = false;
        }
        i = i + 1;
    }
    let fields = split_ranges(&v, '.');
    if (dash.is_some() || comma.is_some()) && all_octet_chars && fields.len() == 4 {
        match parse_octet_range(input) {
            Ok(ips) => Ok(TargetPlan::Addresses(ips)),
            Err(e) => Err(e),
        }
    } else {
        match split_target(input) {
            Ok((host, prefix)) => Ok(TargetPlan::Lookup { host, prefix }),
            Err(e) => Err(e),
        }
    }
}

/// The addresses a looked-up host stands for: the kept resolved addresses,
/// turned into networks, every address of every network.
pub open spec fn finish_targets_spec(host: Seq<char>, resolved: Seq<IpAddress>, prefix: Option<u8>) -> Result<
    Seq<IpAddress>,
    Seq<char>,
> {
    match build_networks_spec(host, selected_addresses(resolved, prefix is Some), prefix) {
        Ok(nets) => Ok(all_network_addresses(nets)),
        Err(e) => Err(e),
    }
}

/// Turns the addresses a host resolved to into the addresses to scan.
pub fn finish_targets(host: &str, resolved: &Vec<IpAddress>, prefix: Option<u8>) -> (r: Result<
    Vec<IpAddress>,
    String,
>)
    requires
        prefix == Some(0u8) && resolved@.len() > 0 ==> resolved@[0] is V4,
    ensures
        match finish_targets_spec(host@, resolved@, prefix) {
            Ok(ips) => r matches Ok(v) && v@ == ips,
            Err(msg) => r matches Err(e) && e@ == msg,
        },
{
    let kept = select_resolved(resolved, prefix.is_some());
    let nets = build_networks(host, &kept, prefix)?;
    proof {
        lemma_networks_valid(kept@, prefix);
        lemma_first_v4_bound(resolved@);
        assert(kept@.len() <= resolved@.len());
        assert forall|j: int| 0 <= j < kept@.len() implies #[trigger] kept@[j] == resolved@[j] by {
        }
        assert forall|i: int| 0 <= i < nets@.len() && (#[trigger] nets@[i]).addr is V6 implies nets@[
            i].prefix >= 1 by {
            lemma_network_from_list(kept@, prefix, i);
            let ks = networks_of(kept@, prefix)->Ok_0;
            let j = choose|j: int|
                0 <= j < kept@.len() && ks[i].addr == kept@[j] && ks[i].prefix == match prefix {
                    Some(p) => p,
                    None => if kept@[j] is V4 {
                        32u8
                    } else {
                        128u8
                    },
                };
            assert(kept@[j] == resolved@[j]);
            if prefix == Some(0u8) {
                assert(resolved@.len() > 0);
                assert(resolved@.take(1).last() == resolved@[0]);
                assert(resolved@.take(1).drop_last() =~= Seq::<IpAddress>::empty());
                assert(first_v4_index(Seq::<IpAddress>::empty()) == -1);
                assert(resolved@[0] is V4);
                assert(first_v4_index(resolved@.take(1)) == 0);
                lemma_first_v4_prefix(resolved@, 1);
                assert(kept@.len() == 1);
            }
        }
    }
    Ok(expand_networks(&nets))
}

proof fn lemma_network_from_list(ips: Seq<IpAddress>, prefix: Option<u8>, i: int)
    requires
        networks_of(ips, prefix) is Ok,
        0 <= i < networks_of(ips, prefix)->Ok_0.len(),
    ensures
        exists|j: int|
            0 <= j < ips.len() && networks_of(ips, prefix)->Ok_0[i].addr == ips[j]
                && networks_of(ips, prefix)->Ok_0[i].prefix == match prefix {
                Some(p) => p,
                None => if ips[j] is V4 {
                    32u8
                } else {
                    128u8
                },
            },
    decreases ips.len(),
{
    let done = networks_of(ips.drop_last(), prefix)->Ok_0;
    if i < done.len() {
        lemma_network_from_list(ips.drop_last(), prefix, i);
        let j = choose|j: int|
            0 <= j < ips.drop_last().len() && done[i].addr == ips.drop_last()[j]
                && done[i].prefix == match prefix {
                Some(p) => p,
                None => if ips.drop_last()[j] is V4 {
                    32u8
                } else {
                    128u8
                },
            };
        assert(ips[j] == ips.drop_last()[j]);
    } else {
        assert(ips[ips.len() - 1] == ips.last());
    }
}

} // verus!
