//! Port list parsing: `80,443`, `1-1024`, and mixtures of both.
use vstd::prelude::*;
use crate::text::{
    chars_of, find_char, lemma_split_once_at, parse_unsigned, parse_unsigned_range, push_range,
    split_once, split_ranges, split_spec, string_of,
};

verus! {

/// The ports `a..=b`, in increasing order.
pub open spec fn port_range(a: nat, b: nat) -> Seq<u16> {
    Seq::new((b + 1 - a) as nat, |i: int| (a + i) as u16)
}

/// What one comma-separated piece of a port list stands for.
pub open spec fn parse_port_part(part: Seq<char>) -> Result<Seq<u16>, Seq<char>> {
    match split_once(part, '-') {
        Some((a, b)) => match parse_unsigned(a, 65535) {
            None => Err("Invalid start port: "@ + a),
            Some(start) => match parse_unsigned(b, 65535) {
                None => Err("Invalid end port: "@ + b),
                Some(end) => if start > end {
                    Err("Start port greater than end port: "@ + part)
                } else {
                    Ok(port_range(start, end))
                },
            },
        },
        None => match parse_unsigned(part, 65535) {
            None => Err("Invalid single port: "@ + part),
            Some(p) => Ok(seq![p as u16]),
        },
    }
}

/// The pieces parsed in order; the first piece in error decides the error.
pub open spec fn parse_port_pieces(pieces: Seq<Seq<char>>) -> Result<Seq<u16>, Seq<char>>
    decreases pieces.len(),
{
    if pieces.len() == 0 {
        Ok(Seq::empty())
    } else {
        match parse_port_pieces(pieces.drop_last()) {
            Err(e) => Err(e),
            Ok(done) => match parse_port_part(pieces.last()) {
                Err(e) => Err(e),
                Ok(more) => Ok(done + more),
            },
        }
    }
}

/// What a port list such as `22,80,8000-8010` stands for.
pub open spec fn parse_ports_spec(s: Seq<char>) -> Result<Seq<u16>, Seq<char>> {
    parse_port_pieces(split_spec(s, ','))
}

proof fn lemma_pieces_error_stays(pieces: Seq<Seq<char>>, k: int, e: Seq<char>)
    requires
        0 <= k <= pieces.len(),
        parse_port_pieces(pieces.take(k)) == Err::<Seq<u16>, Seq<char>>(e),
    ensures
        parse_port_pieces(pieces) == Err::<Seq<u16>, Seq<char>>(e),
    decreases pieces.len() - k,
{
    if k < pieces.len() {
        assert(pieces.take(k + 1).drop_last() =~= pieces.take(k));
        lemma_pieces_error_stays(pieces, k + 1, e);
    } else {
        assert(pieces.take(k) =~= pieces);
    }
}

/// An error text: `prefix` followed by `v[lo..hi]`.
fn error_with(prefix: &str, v: &Vec<char>, lo: usize, hi: usize) -> (e: String)
    requires
        lo <= hi <= v@.len(),
    ensures
        e@ == prefix@ + v@.subrange(lo as int, hi as int),
{
    let mut e = string_of(prefix);
    push_range(&mut e, v, lo, hi);
    e
}

/// Parses the piece `v[lo..hi]` and appends its ports to `out`.
fn parse_port_part_into(v: &Vec<char>, lo: usize, hi: usize, out: &mut Vec<u16>) -> (r: Result<
    (),
    String,
>)
    requires
        lo <= hi <= v@.len(),
    ensures
        match parse_port_part(v@.subrange(lo as int, hi as int)) {
            Ok(ps) => r is Ok && final(out)@ == old(out)@ + ps,
            Err(msg) => r matches Err(e) && e@ == msg,
        },
{
    let ghost part = v@.subrange(lo as int, hi as int);
    match find_char(v, lo, hi, '-') {
        Some(i) => {
            proof {
                lemma_split_once_at(part, '-', i - lo);
                assert(part.take(i - lo) =~= v@.subrange(lo as int, i as int));
                assert(part.skip(i - lo + 1) =~= v@.subrange(i + 1, hi as int));
            }
            let start = match parse_unsigned_range(v, lo, i, 65535) {
                Some(n) => n,
                None => {
                    return Err(error_with("Invalid start port: ", v, lo, i));
                },
            };
            let end = match parse_unsigned_range(v, i + 1, hi, 65535) {
                Some(n) => n,
                None => {
                    return Err(error_with("Invalid end port: ", v, i + 1, hi));
                },
            };
            if start > end {
                return Err(error_with("Start port greater than end port: ", v, lo, hi));
            }
            let ghost before = out@;
            let mut p: u32 = start;
            while p <= end
                invariant
                    start <= p <= end + 1,
                    end <= 65535,
                    out@ == before + port_range(start as nat, end as nat).take(p - start),
                decreases end + 1 - p,
            {
                out.push(p as u16);
                assert(port_range(start as nat, end as nat).take(p + 1 - start) =~= port_range(
                    start as nat,
                    end as nat,
                ).take(p - start).push(p as u16));
                p = p + 1;
            }
            assert(port_range(start as nat, end as nat).take(p - start) =~= port_range(
                start as nat,
                end as nat,
            ));
            Ok(())
        },
        None => {
            proof {
                assert(split_once(part, '-') is None);
            }
            match parse_unsigned_range(v, lo, hi, 65535) {
                Some(n) => {
                    out.push(n as u16);
                    assert(out@ =~= old(out)@ + seq![n as u16]);
                    Ok(())
                },
                None => Err(error_with("Invalid single port: ", v, lo, hi)),
            }
        },
    }
}

/// Parses a port list: comma-separated pieces, each a port or an
/// inclusive range `start-end`; the ports come out in the order written.
pub fn parse_ports(port_str: &str) -> (r: Result<Vec<u16>, String>)
    ensures
        match parse_ports_spec(port_str@) {
            Ok(ps) => r matches Ok(v) && v@ == ps,
            Err(msg) => r matches Err(e) && e@ == msg,
        },
{
    let v = chars_of(port_str);
    let ranges = split_ranges(&v, ',');
    let ghost pieces = split_spec(v@, ',');
    let mut ports: Vec<u16> = Vec::new();
    let mut k: usize = 0;
    while k < ranges.len()
        invariant
            v@ == port_str@,
            pieces == split_spec(v@, ','),
            ranges@.len() == pieces.len(),
            forall|j: int|
                0 <= j < ranges@.len() ==> {
                    &&& (#[trigger] ranges@[j]).0 <= ranges@[j].1 <= v@.len()
                    &&& v@.subrange(ranges@[j].0 as int, ranges@[j].1 as int) == pieces[j]
                },
            k <= ranges@.len(),
            parse_port_pieces(pieces.take(k as int)) == Ok::<Seq<u16>, Seq<char>>(ports@),
        decreases ranges@.len() - k,
    {
        let (lo, hi) = ranges[k];
        assert(pieces.take(k + 1).drop_last() =~= pieces.take(k as int));
        assert(pieces.take(k + 1).last() == pieces[k as int]);
        match parse_port_part_into(&v, lo, hi, &mut ports) {
            Ok(()) => {},
            Err(e) => {
                proof {
                    assert(v@.subrange(lo as int, hi as int) == pieces[k as int]);
                    assert(parse_port_part(pieces[k as int]) == Err::<Seq<u16>, Seq<char>>(e@));
                    assert(parse_port_pieces(pieces.take(k + 1)) == Err::<Seq<u16>, Seq<char>>(
                        e@,
                    ));
                    lemma_pieces_error_stays(pieces, k + 1, e@);
                }
                return Err(e);
            },
        }
        k = k + 1;
    }
    assert(pieces.take(k as int) =~= pieces);
    Ok(ports)
}

} // verus!
