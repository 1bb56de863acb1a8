//! The port-to-service table read from an `nmap-services` file.
use vstd::prelude::*;
use std::collections::HashMap;
use crate::text::{
    chars_of, find_char, lemma_split_once_at, line_ranges, lines_spec, parse_unsigned,
    parse_unsigned_range, split_once, string_of_range, word_ranges, words,
};

verus! {

broadcast use vstd::std_specs::hash::group_hash_axioms;

pub open spec fn tcp_text() -> Seq<char> {
    seq!['t', 'c', 'p']
}

/// The entry a services line gives: its first word is the service name, its
/// second `port/proto`; only TCP entries with a port that fits in 16 bits
/// count. Comment lines (`#`) and empty lines give none.
pub open spec fn service_entry(line: Seq<char>) -> Option<(u16, Seq<char>)> {
    if line.len() == 0 || line[0] == '#' {
        None
    } else {
        let w = words(line);
        if w.len() < 2 {
            None
        } else {
            match split_once(w[1], '/') {
                Some((port, proto)) => if proto == tcp_text() {
                    match parse_unsigned(port, 65535) {
                        Some(p) => Some((p as u16, w[0])),
                        None => None,
                    }
                } else {
                    None
                },
                None => None,
            }
        }
    }
}

/// The table the lines give, later lines overriding earlier ones.
pub open spec fn service_table(lines: Seq<Seq<char>>) -> Map<u16, Seq<char>>
    decreases lines.len(),
{
    if lines.len() == 0 {
        Map::empty()
    } else {
        let t = service_table(lines.drop_last());
        match service_entry(lines.last()) {
            Some((p, name)) => t.insert(p, name),
            None => t,
        }
    }
}

/// The texts of a table's names.
pub open spec fn table_view(m: Map<u16, String>) -> Map<u16, Seq<char>> {
    m.map_values(|s: String| s@)
}

/// The entry of line `v[a..b]`.
fn entry_at(v: &Vec<char>, a: usize, b: usize) -> (r: Option<(u16, String)>)
    requires
        a <= b <= v@.len(),
    ensures
        match service_entry(v@.subrange(a as int, b as int)) {
            Some((p, name)) => r matches Some((q, s)) && q == p && s@ == name,
            None => r is None,
        },
{
    let ghost line = v@.subrange(a as int, b as int);
    if a == b || v[a] == '#' {
        return None;
    }
    let ws = word_ranges(v, a, b);
    if ws.len() < 2 {
        return None;
    }
    let (n0, n1) = ws[0];
    let (p0, p1) = ws[1];
    let ghost w1 = v@.subrange(p0 as int, p1 as int);
    match find_char(v, p0, p1, '/') {
        Some(i) => {
            proof {
                lemma_split_once_at(w1, '/', i - p0);
                assert(w1.take(i - p0) =~= v@.subrange(p0 as int, i as int));
                assert(w1.skip(i - p0 + 1) =~= v@.subrange(i + 1, p1 as int));
            }
            let is_tcp = p1 - (i + 1) == 3 && v[i + 1] == 't' && v[i + 2] == 'c' && v[i + 3] == 'p';
            assert(is_tcp == (v@.subrange(i + 1, p1 as int) =~= tcp_text()));
            if !is_tcp {
                return None;
            }
            match parse_unsigned_range(v, p0, i, 65535) {
                Some(port) => Some((port as u16, string_of_range(v, n0, n1))),
                None => None,
            }
        },
        None => None,
    }
}

/// Reads the text of an `nmap-services` file into a port-to-service table.
pub fn parse_services(contents: &str) -> (r: HashMap<u16, String>)
    ensures
        table_view(r@) == service_table(lines_spec(contents@)),
{
    let v = chars_of(contents);
    let lines = line_ranges(&v);
    let ghost ls = lines_spec(v@);
    let mut services: HashMap<u16, String> = HashMap::new();
    let mut k: usize = 0;
    while k < lines.len()
        invariant
            v@ == contents@,
            ls == lines_spec(v@),
            lines@.len() == ls.len(),
            forall|j: int|
                0 <= j < lines@.len() ==> {
                    &&& (#[trigger] lines@[j]).0 <= lines@[j].1 <= v@.len()
                    &&& v@.subrange(lines@[j].0 as int, lines@[j].1 as int) == ls[j]
                },
            k <= lines@.len(),
            table_view(services@) == service_table(ls.take(k as int)),
        decreases lines@.len() - k,
    {
        let (a, b) = lines[k];
        assert(ls.take(k + 1).drop_last() =~= ls.take(k as int));
        match entry_at(&v, a, b) {
            Some((port, name)) => {
                let ghost before = services@;
                let ghost nv = name@;
                services.insert(port, name);
                assert(table_view(services@) =~= table_view(before).insert(port, nv));
            },
            None => {},
        }
        k = k + 1;
    }
    assert(ls.take(k as int) =~= ls);
    services
}

} // verus!
