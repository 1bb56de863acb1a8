//! Scan types, file names, time labels, privilege checks and the lines of
//! the text report.
use vstd::prelude::*;
use std::collections::HashMap;
use crate::date::{date_text, is_civil_date, tdiv, trem, civil_from_days};
use crate::scanner::{PortStatus, status_text, status_label};
use crate::diff::{DiffResult, ScanSnapshot, change_views, texts};
use crate::text::{
    all_digits, chars_of, decimal, is_digit, same_text, padded_int, push_char, push_decimal, push_padded_int, push_range, string_of,
    string_of_chars, string_of_range, line_ranges, lines_spec, trim, trim_range, word_ranges,
    words,
};

verus! {

broadcast use vstd::std_specs::hash::group_hash_axioms;

/// The scan techniques a run can use.
#[derive(PartialEq, Eq, Structural, Clone, Copy, Debug)]
pub enum ScanType {
    Connect,
    Syn,
    Fin,
    Null,
    Xmas,
    Ack,
    Udp,
}

/// The short lowercase name of a scan type, as saved with a scan.
pub open spec fn scan_type_text(t: ScanType) -> Seq<char> {
    match t {
        ScanType::Connect => "connect"@,
        ScanType::Syn => "syn"@,
        ScanType::Fin => "fin"@,
        ScanType::Null => "null"@,
        ScanType::Xmas => "xmas"@,
        ScanType::Ack => "ack"@,
        ScanType::Udp => "udp"@,
    }
}

/// Each scan type has its own title, its variant's name ("Connect", "Syn",
/// "Fin", "Null", "Xmas", "Ack", "Udp"), different types get different
/// titles, and its short label is the title in lowercase, so the label of
/// a saved run names the technique that ran.
pub proof fn law_scan_type_names(a: ScanType, b: ScanType)
    ensures
        scan_type_title(a) == scan_type_title(b) ==> a == b,
        scan_type_text(a) == scan_type_text(b) ==> a == b,
        scan_type_text(a) == crate::text::ascii_lower(scan_type_title(a)),
        scan_type_title(ScanType::Connect) == "Connect"@,
        scan_type_title(ScanType::Syn) == "Syn"@,
        scan_type_title(ScanType::Fin) == "Fin"@,
        scan_type_title(ScanType::Null) == "Null"@,
        scan_type_title(ScanType::Xmas) == "Xmas"@,
        scan_type_title(ScanType::Ack) == "Ack"@,
        scan_type_title(ScanType::Udp) == "Udp"@,
{
    reveal_strlit("Connect");
    reveal_strlit("Syn");
    reveal_strlit("Fin");
    reveal_strlit("Null");
    reveal_strlit("Xmas");
    reveal_strlit("Ack");
    reveal_strlit("Udp");
    reveal_strlit("connect");
    reveal_strlit("syn");
    reveal_strlit("fin");
    reveal_strlit("null");
    reveal_strlit("xmas");
    reveal_strlit("ack");
    reveal_strlit("udp");
    assert(scan_type_text(a) =~= crate::text::ascii_lower(scan_type_title(a)));
    if scan_type_title(a) == scan_type_title(b) && a != b {
        let x = scan_type_title(a);
        let y = scan_type_title(b);
        assert(x.len() != y.len() || x[0] != y[0] || x[1] != y[1]);
    }
    if scan_type_text(a) == scan_type_text(b) && a != b {
        let x = scan_type_text(a);
        let y = scan_type_text(b);
        assert(x.len() != y.len() || x[0] != y[0] || x[1] != y[1]);
    }
}

/// The short lowercase name of a scan type.
pub fn scan_type_label(t: ScanType) -> (r: String)
    ensures
        r@ == scan_type_text(t),
{
    match t {
        ScanType::Connect => string_of("connect"),
        ScanType::Syn => string_of("syn"),
        ScanType::Fin => string_of("fin"),
        ScanType::Null => string_of("null"),
        ScanType::Xmas => string_of("xmas"),
        ScanType::Ack => string_of("ack"),
        ScanType::Udp => string_of("udp"),
    }
}

/// The capitalised name of a scan type, as the report header shows it.
pub open spec fn scan_type_title(t: ScanType) -> Seq<char> {
    match t {
        ScanType::Connect => "Connect"@,
        ScanType::Syn => "Syn"@,
        ScanType::Fin => "Fin"@,
        ScanType::Null => "Null"@,
        ScanType::Xmas => "Xmas"@,
        ScanType::Ack => "Ack"@,
        ScanType::Udp => "Udp"@,
    }
}

/// The capitalised name of a scan type.
pub fn scan_type_name(t: ScanType) -> (r: String)
    ensures
        r@ == scan_type_title(t),
{
    match t {
        ScanType::Connect => string_of("Connect"),
        ScanType::Syn => string_of("Syn"),
        ScanType::Fin => string_of("Fin"),
        ScanType::Null => string_of("Null"),
        ScanType::Xmas => string_of("Xmas"),
        ScanType::Ack => string_of("Ack"),
        ScanType::Udp => string_of("Udp"),
    }
}

/// Whether a scan type sends raw TCP packets (and so needs raw-socket rights).
pub fn needs_raw_tcp(t: ScanType) -> (r: bool)
    ensures
        r == (t == ScanType::Syn || t == ScanType::Fin || t == ScanType::Null || t == ScanType::Xmas
            || t == ScanType::Ack),
{
    match t {
        ScanType::Syn | ScanType::Fin | ScanType::Null | ScanType::Xmas | ScanType::Ack => true,
        _ => false,
    }
}

/// The number of rows `--history` shows: the request kept between 1 and 200.
pub fn history_limit(requested: usize) -> (r: usize)
    ensures
        r == (if requested < 1 {
            1
        } else if requested > 200 {
            200
        } else {
            requested
        }),
{
    if requested < 1 {
        1
    } else if requested > 200 {
        200
    } else {
        requested
    }
}

// ---------------------------------------------------------------------------
// Texts
// ---------------------------------------------------------------------------

/// `s` cut to `max` characters: unchanged if it fits, else its first
/// `max - 3` characters (none if `max` is below 3) followed by `...`.
pub open spec fn clip_text(s: Seq<char>, max: nat) -> Seq<char> {
    if s.len() <= max {
        s
    } else {
        s.take(
            if max >= 3 {
                max - 3
            } else {
                0
            },
        ) + "..."@
    }
}

/// `input` cut to `max` characters (see `clip_text`).
pub fn clip(input: &str, max: usize) -> (r: String)
    ensures
        r@ == clip_text(input@, max as nat),
        max >= 3 ==> r@.len() <= max,
{
    let v = chars_of(input);
    if v.len() <= max {
        return string_of_chars(&v);
    }
    let keep = if max >= 3 {
        max - 3
    } else {
        0
    };
    let mut s = string_of_range(&v, 0, keep);
    s.append("...");
    assert(v@.subrange(0, keep as int) =~= v@.take(keep as int));
    proof {
        reveal_strlit("...");
    }
    s
}

/// The Unicode alphanumeric property, as `char::is_alphanumeric` reports it.
pub uninterp spec fn unicode_alphanumeric(c: char) -> bool;

/// Whether `c` is alphanumeric (`char::is_alphanumeric`: alphabetic or
/// numeric). Among ASCII characters these are exactly the letters and the
/// digits; beyond ASCII the result is the named Unicode property.
#[verifier::external_body]
fn is_alphanumeric(c: char) -> (r: bool)
    ensures
        r == unicode_alphanumeric(c),
        (c as u32) < 128 ==> (r <==> (('0' <= c <= '9') || ('a' <= c <= 'z') || ('A' <= c <= 'Z'))),
{
    c.is_alphanumeric()
}

/// A character kept in file names: alphanumerics, `.` and `-`; any other
/// becomes `_`.
pub open spec fn file_char(c: char) -> char {
    if unicode_alphanumeric(c) || c == '.' || c == '-' {
        c
    } else {
        '_'
    }
}

/// A target made safe for a file name.
pub open spec fn sanitized(s: Seq<char>) -> Seq<char> {
    s.map_values(|c: char| file_char(c))
}

/// A target made safe for a file name (see `sanitized`).
pub fn sanitize(s: &str) -> (r: String)
    ensures
        r@ == sanitized(s@),
{
    let v = chars_of(s);
    let mut r = String::new();
    let mut i: usize = 0;
    while i < v.len()
        invariant
            i <= v@.len(),
            r@ == sanitized(v@.take(i as int)),
        decreases v@.len() - i,
    {
        let c = v[i];
        let k = if is_alphanumeric(c) || c == '.' || c == '-' {
            c
        } else {
            '_'
        };
        push_char(&mut r, k);
        assert(sanitized(v@.take(i + 1)) =~= sanitized(v@.take(i as int)).push(file_char(c)));
        i = i + 1;
    }
    assert(v@.take(i as int) =~= v@);
    r
}

/// The file name of a saved snapshot: `synapse_<target>_<timestamp>.json`.
pub open spec fn snapshot_file_text(target: Seq<char>, ts: u64) -> Seq<char> {
    "synapse_"@ + sanitized(target) + "_"@ + decimal(ts as nat) + ".json"@
}

/// The file name of a saved snapshot.
pub fn snapshot_file_name(target: &str, ts: u64) -> (r: String)
    ensures
        r@ == snapshot_file_text(target@, ts),
{
    let mut r = string_of("synapse_");
    let s = sanitize(target);
    r.append(s.as_str());
    r.append("_");
    push_decimal(&mut r, ts);
    r.append(".json");
    r
}

/// A snapshot is found again by its target: the file name it is saved
/// under is one that the search for the target's snapshots accepts.
pub proof fn law_saved_snapshot_is_found(target: Seq<char>, ts: u64)
    ensures
        is_snapshot_of(snapshot_file_text(target, ts), target),
{
    reveal_strlit(".json");
    let name = snapshot_file_text(target, ts);
    let prefix = "synapse_"@ + sanitized(target) + "_"@;
    assert(name == prefix + decimal(ts as nat) + ".json"@);
    assert(name.take(prefix.len() as int) =~= prefix);
    assert(name.skip(name.len() - 5) =~= json_suffix());
    crate::text::lemma_decimal_is_digits(ts as nat);
    assert(name.subrange(prefix.len() as int, name.len() - 5) =~= decimal(ts as nat));
}

/// The path of a saved text report: `results/synapse_<target>_<timestamp>.txt`.
pub open spec fn report_path_text(target: Seq<char>, ts: u64) -> Seq<char> {
    "results/synapse_"@ + sanitized(target) + "_"@ + decimal(ts as nat) + ".txt"@
}

/// The path of a saved text report.
pub fn report_path(target: &str, ts: u64) -> (r: String)
    ensures
        r@ == report_path_text(target@, ts),
{
    let mut r = string_of("results/synapse_");
    let s = sanitize(target);
    r.append(s.as_str());
    r.append("_");
    push_decimal(&mut r, ts);
    r.append(".txt");
    r
}

/// A file name of a snapshot of `target`: `synapse_<target>_<digits>.json`,
/// with the target made safe for file names and a timestamp of one or more
/// decimal digits.
pub open spec fn is_snapshot_of(name: Seq<char>, target: Seq<char>) -> bool {
    let prefix = "synapse_"@ + sanitized(target) + "_"@;
    &&& name.len() > prefix.len() + 5
    &&& name.take(prefix.len() as int) == prefix
    &&& name.skip(name.len() - 5) == json_suffix()
    &&& all_digits(name.subrange(prefix.len() as int, name.len() - 5))
}

pub open spec fn json_suffix() -> Seq<char> {
    seq!['.', 'j', 's', 'o', 'n']
}

fn snapshot_of(name: &Vec<char>, prefix: &Vec<char>) -> (r: bool)
    ensures
        r == (name@.len() > prefix@.len() + 5 && name@.take(prefix@.len() as int) == prefix@
            && name@.skip(name@.len() - 5) == json_suffix() && all_digits(
            name@.subrange(prefix@.len() as int, name@.len() - 5),
        )),
{
    if name.len() <= 5 || name.len() - 5 <= prefix.len() {
        return false;
    }
    let mut i: usize = 0;
    while i < prefix.len()
        invariant
            i <= prefix@.len() < name@.len(),
            forall|k: int| 0 <= k < i ==> name@[k] == prefix@[k],
        decreases prefix@.len() - i,
    {
        if name[i] != prefix[i] {
            assert(name@.take(prefix@.len() as int)[i as int] != prefix@[i as int]);
            return false;
        }
        i = i + 1;
    }
    assert(name@.take(prefix@.len() as int) =~= prefix@);
    let n = name.len();
    let ok = name[n - 5] == '.' && name[n - 4] == 'j' && name[n - 3] == 's' && name[n - 2] == 'o'
        && name[n - 1] == 'n';
    proof {
        let tail = name@.skip(name@.len() - 5);
        if ok {
            assert(tail =~= json_suffix());
        } else if tail == json_suffix() {
            assert(tail[0] == name@[n - 5] && tail[1] == name@[n - 4] && tail[2] == name@[n - 3]
                && tail[3] == name@[n - 2] && tail[4] == name@[n - 1]);
        }
    }
    if !ok {
        return false;
    }
    let ghost mid = name@.subrange(prefix@.len() as int, n - 5);
    let mut k: usize = prefix.len();
    while k < n - 5
        invariant
            prefix@.len() <= k <= n - 5,
            n == name@.len(),
            mid == name@.subrange(prefix@.len() as int, n - 5),
            forall|q: int| prefix@.len() <= q < k ==> is_digit(#[trigger] name@[q]),
        decreases n - 5 - k,
    {
        let c = name[k];
        if !('0' <= c && c <= '9') {
            assert(mid[k - prefix@.len()] == c);
            return false;
        }
        k = k + 1;
    }
    assert forall|q: int| 0 <= q < mid.len() implies is_digit(#[trigger] mid[q]) by {
        assert(mid[q] == name@[prefix@.len() + q]);
    }
    true
}

/// Whether `name` is the file name of a snapshot of `target` (see
/// `is_snapshot_of`).
pub fn snapshot_name_matches(name: &str, target: &str) -> (r: bool)
    ensures
        r == is_snapshot_of(name@, target@),
{
    let mut p = string_of("synapse_");
    let s = sanitize(target);
    p.append(s.as_str());
    p.append("_");
    let prefix = chars_of(p.as_str());
    let cand = chars_of(name);
    snapshot_of(&cand, &prefix)
}

/// `i` is the latest snapshot of `target` among `snaps`: its target is
/// `target`, no snapshot of that target is later, and any later one in the
/// list is earlier in time (among equal times the last in the list wins).
pub open spec fn is_latest_of(snaps: Seq<ScanSnapshot>, target: Seq<char>, i: int) -> bool {
    &&& 0 <= i < snaps.len()
    &&& snaps[i].target@ == target
    &&& forall|k: int|
        0 <= k < snaps.len() && (#[trigger] snaps[k]).target@ == target ==> snaps[k].timestamp
            <= snaps[i].timestamp && (k > i ==> snaps[k].timestamp < snaps[i].timestamp)
}

/// The latest of the saved snapshots whose target is `target`, or `None`
/// if none is.
pub fn latest_snapshot(snaps: &Vec<ScanSnapshot>, target: &str) -> (r: Option<usize>)
    ensures
        match r {
            Some(i) => is_latest_of(snaps@, target@, i as int),
            None => forall|k: int| 0 <= k < snaps@.len() ==> (#[trigger] snaps@[k]).target@ != target@,
        },
{
    let mut best: Option<usize> = None;
    let mut j: usize = 0;
    while j < snaps.len()
        invariant
            j <= snaps@.len(),
            match best {
                Some(i) => i < j && snaps@[i as int].target@ == target@ && forall|k: int|
                    0 <= k < j && (#[trigger] snaps@[k]).target@ == target@ ==> snaps@[k].timestamp
                        <= snaps@[i as int].timestamp && (k > i ==> snaps@[k].timestamp
                        < snaps@[i as int].timestamp),
                None => forall|k: int| 0 <= k < j ==> (#[trigger] snaps@[k]).target@ != target@,
            },
        decreases snaps@.len() - j,
    {
        if same_text(snaps[j].target.as_str(), target) {
            let take = match best {
                None => true,
                Some(i) => snaps[j].timestamp >= snaps[i].timestamp,
            };
            if take {
                best = Some(j);
            }
        }
        j = j + 1;
    }
    best
}

// ---------------------------------------------------------------------------
// Time labels
// ---------------------------------------------------------------------------

/// A Unix timestamp as `YYYY-MM-DD hh:mm`, the seconds read as a signed
/// 64-bit count and split into days and time of day as Rust's `/` and `%` do.
pub open spec fn ts_label_matches(ts: u64, text: Seq<char>) -> bool {
    let secs = ts as i64 as int;
    let tod = trem(secs, 86400);
    exists|y: int, m: int, d: int|
        is_civil_date(tdiv(secs, 86400), y, m, d) && text == date_text(y, m, d) + seq![' ']
            + padded_int(tdiv(tod, 3600), 2) + seq![':'] + padded_int(tdiv(trem(tod, 3600), 60), 2)
}

/// A Unix timestamp as `YYYY-MM-DD hh:mm` (UTC).
pub fn ts_label(ts: u64) -> (r: String)
    ensures
        ts_label_matches(ts, r@),
{
    let secs = ts as i64;
    let (y, m, d) = civil_from_days(secs / 86400);
    let time_of_day = secs % 86400;
    let h = time_of_day / 3600;
    let min = (time_of_day % 3600) / 60;
    let mut s = String::new();
    push_padded_int(&mut s, y, 4);
    push_char(&mut s, '-');
    push_padded_int(&mut s, m, 2);
    push_char(&mut s, '-');
    push_padded_int(&mut s, d, 2);
    let ghost date = s@;
    push_char(&mut s, ' ');
    push_padded_int(&mut s, h, 2);
    push_char(&mut s, ':');
    push_padded_int(&mut s, min, 2);
    assert(date =~= date_text(y as int, m as int, d as int));
    proof {
        let si = ts as i64 as int;
        assert(secs as int == si);
        assert(time_of_day as int == trem(si, 86400));
        assert(h as int == tdiv(trem(si, 86400), 3600));
        assert(min as int == tdiv(trem(trem(si, 86400), 3600), 60));
        assert(s@ =~= date_text(y as int, m as int, d as int) + seq![' '] + padded_int(h as int, 2)
            + seq![':'] + padded_int(min as int, 2));
        assert(is_civil_date(tdiv(si, 86400), y as int, m as int, d as int));
    }
    s
}

// ---------------------------------------------------------------------------
// Raw-socket privileges, from the text of /proc/self/status
// ---------------------------------------------------------------------------

/// `l` starts with `p`.
pub open spec fn starts_with(l: Seq<char>, p: Seq<char>) -> bool {
    l.len() >= p.len() && l.take(p.len() as int) == p
}

pub open spec fn uid_prefix() -> Seq<char> {
    seq!['U', 'i', 'd', ':']
}

/// What the first `Uid:` line with a value says: whether its second value,
/// the effective user id, is `0` (a line with one value names no
/// effective user id, and says no).
pub open spec fn uid_root_in(lines: Seq<Seq<char>>) -> Option<bool>
    decreases lines.len(),
{
    if lines.len() == 0 {
        None
    } else {
        match uid_root_in(lines.drop_last()) {
            Some(b) => Some(b),
            None => {
                let l = lines.last();
                if starts_with(l, uid_prefix()) && words(l.skip(4)).len() > 0 {
                    Some(words(l.skip(4)).len() >= 2 && words(l.skip(4))[1] == seq!['0'])
                } else {
                    None
                }
            },
        }
    }
}

/// The process runs as root: the first `Uid:` line with a value has
/// effective user id `0` (its second field; the first is the real user id).
pub open spec fn status_says_root(status: Seq<char>) -> bool {
    uid_root_in(lines_spec(status)) == Some(true)
}

fn has_prefix(v: &Vec<char>, a: usize, b: usize, p: &Vec<char>) -> (r: bool)
    requires
        a <= b <= v@.len(),
    ensures
        r == starts_with(v@.subrange(a as int, b as int), p@),
{
    if b - a < p.len() {
        return false;
    }
    let mut i: usize = 0;
    while i < p.len()
        invariant
            i <= p@.len(),
            a + p@.len() <= b <= v@.len(),
            forall|k: int| 0 <= k < i ==> v@[a + k] == p@[k],
        decreases p@.len() - i,
    {
        if v[a + i] != p[i] {
            assert(v@.subrange(a as int, b as int).take(p@.len() as int)[i as int] != p@[i as int]);
            return false;
        }
        i = i + 1;
    }
    assert(v@.subrange(a as int, b as int).take(p@.len() as int) =~= p@);
    true
}

/// Whether the status text says the process runs as root.
pub fn is_effective_root(status: &str) -> (r: bool)
    ensures
        r == status_says_root(status@),
{
    let v = chars_of(status);
    let lines = line_ranges(&v);
    let ghost ls = lines_spec(v@);
    let mut p: Vec<char> = Vec::new();
    p.push('U');
    p.push('i');
    p.push('d');
    p.push(':');
    assert(p@ =~= uid_prefix());
    let mut k: usize = 0;
    while k < lines.len()
        invariant
            v@ == status@,
            ls == lines_spec(v@),
            p@ == uid_prefix(),
            lines@.len() == ls.len(),
            forall|j: int|
                0 <= j < lines@.len() ==> {
                    &&& (#[trigger] lines@[j]).0 <= lines@[j].1 <= v@.len()
                    &&& v@.subrange(lines@[j].0 as int, lines@[j].1 as int) == ls[j]
                },
            k <= lines@.len(),
            uid_root_in(ls.take(k as int)) is None,
        decreases lines@.len() - k,
    {
        let (a, b) = lines[k];
        assert(ls.take(k + 1).drop_last() =~= ls.take(k as int));
        if has_prefix(&v, a, b, &p) {
            let ws = word_ranges(&v, a + 4, b);
            assert(v@.subrange(a + 4, b as int) =~= ls[k as int].skip(4));
            if ws.len() > 0 {
                assert(ls.take(k + 1).last() == ls[k as int]);
                if ws.len() < 2 {
                    proof {
                        lemma_uid_prefix(ls, k + 1);
                    }
                    return false;
                }
                let (c, d) = ws[1];
                assert(a + 4 <= c && c <= d && d <= b);
                let zero = d - c == 1 && v[c] == '0';
                proof {
                    let w = v@.subrange(c as int, d as int);
                    assert(w.len() == d - c);
                    if d - c == 1 {
                        assert(w[0] == v@[c as int]);
                        assert(w =~= seq![v@[c as int]]);
                        if v@[c as int] != '0' {
                            assert(w[0] != seq!['0'][0]);
                        }
                    }
                    assert(zero == (w == seq!['0']));
                }
                proof {
                    lemma_uid_prefix(ls, k + 1);
                }
                return zero;
            }
        }
        k = k + 1;
    }
    assert(ls.take(k as int) =~= ls);
    false
}

proof fn lemma_uid_prefix(ls: Seq<Seq<char>>, k: int)
    requires
        0 <= k <= ls.len(),
        uid_root_in(ls.take(k)) is Some,
    ensures
        uid_root_in(ls) == uid_root_in(ls.take(k)),
    decreases ls.len() - k,
{
    if k < ls.len() {
        assert(ls.take(k + 1).drop_last() =~= ls.take(k));
        lemma_uid_prefix(ls, k + 1);
    } else {
        assert(ls.take(k) =~= ls);
    }
}

/// The value of a hexadecimal digit, if `c` is one.
pub open spec fn hex_value(c: char) -> Option<nat> {
    if '0' <= c <= '9' {
        Some((c as int - '0' as int) as nat)
    } else if 'a' <= c <= 'f' {
        Some((c as int - 'a' as int + 10) as nat)
    } else if 'A' <= c <= 'F' {
        Some((c as int - 'A' as int + 10) as nat)
    } else {
        None
    }
}

/// The value of a run of hexadecimal digits.
pub open spec fn hex_digits_value(s: Seq<char>) -> nat
    decreases s.len(),
{
    if s.len() == 0 {
        0
    } else {
        hex_digits_value(s.drop_last()) * 16 + match hex_value(s.last()) {
            Some(d) => d,
            None => 0,
        }
    }
}

/// The digits of an unsigned number: `s` without a leading `+`.
pub open spec fn unsigned_digits(s: Seq<char>) -> Seq<char> {
    if s.len() > 0 && s[0] == '+' {
        s.drop_first()
    } else {
        s
    }
}

/// Every character of `d` is a hexadecimal digit.
pub open spec fn all_hex(d: Seq<char>) -> bool {
    forall|i: int| 0 <= i < d.len() ==> (#[trigger] hex_value(d[i])) is Some
}

/// What `u128::from_str_radix(s, 16)` gives: an optional `+`, then one or
/// more hexadecimal digits whose value fits in 128 bits.
pub open spec fn parse_hex_u128(s: Seq<char>) -> Option<nat> {
    let d = unsigned_digits(s);
    if d.len() > 0 && all_hex(d) && hex_digits_value(d) <= u128::MAX {
        Some(hex_digits_value(d))
    } else {
        None
    }
}

pub open spec fn cap_tab_prefix() -> Seq<char> {
    seq!['C', 'a', 'p', 'E', 'f', 'f', ':', '\t']
}

pub open spec fn cap_prefix() -> Seq<char> {
    seq!['C', 'a', 'p', 'E', 'f', 'f', ':']
}

/// The rest of the first line that starts with `p`.
pub open spec fn first_with_prefix(lines: Seq<Seq<char>>, p: Seq<char>) -> Option<Seq<char>>
    decreases lines.len(),
{
    if lines.len() == 0 {
        None
    } else {
        match first_with_prefix(lines.drop_last(), p) {
            Some(r) => Some(r),
            None => if starts_with(lines.last(), p) {
                Some(lines.last().skip(p.len() as int))
            } else {
                None
            },
        }
    }
}

/// The effective capability set holds `CAP_NET_RAW` (bit 13): the value of
/// the first `CapEff:\t` line, or failing that of the first `CapEff:` line,
/// trimmed, read as hexadecimal.
pub open spec fn status_says_cap_net_raw(status: Seq<char>) -> bool {
    let ls = lines_spec(status);
    let hex = match first_with_prefix(ls, cap_tab_prefix()) {
        Some(h) => Some(h),
        None => first_with_prefix(ls, cap_prefix()),
    };
    match hex {
        None => false,
        Some(h) => match parse_hex_u128(trim(h)) {
            None => false,
            Some(mask) => (mask / 8192) % 2 == 1,
        },
    }
}

proof fn lemma_first_prefix_stays(ls: Seq<Seq<char>>, p: Seq<char>, k: int)
    requires
        0 <= k <= ls.len(),
        first_with_prefix(ls.take(k), p) is Some,
    ensures
        first_with_prefix(ls, p) == first_with_prefix(ls.take(k), p),
    decreases ls.len() - k,
{
    if k < ls.len() {
        assert(ls.take(k + 1).drop_last() =~= ls.take(k));
        lemma_first_prefix_stays(ls, p, k + 1);
    } else {
        assert(ls.take(k) =~= ls);
    }
}

/// The bounds of the rest of the first line starting with `p`.
fn find_prefixed_line(v: &Vec<char>, lines: &Vec<(usize, usize)>, p: &Vec<char>) -> (r: Option<
    (usize, usize),
>)
    requires
        lines@.len() == lines_spec(v@).len(),
        forall|j: int|
            0 <= j < lines@.len() ==> {
                &&& (#[trigger] lines@[j]).0 <= lines@[j].1 <= v@.len()
                &&& v@.subrange(lines@[j].0 as int, lines@[j].1 as int) == lines_spec(v@)[j]
            },
    ensures
        match r {
            Some((a, b)) => a <= b <= v@.len() && first_with_prefix(lines_spec(v@), p@) == Some(
                v@.subrange(a as int, b as int),
            ),
            None => first_with_prefix(lines_spec(v@), p@) is None,
        },
{
    let ghost ls = lines_spec(v@);
    let mut k: usize = 0;
    while k < lines.len()
        invariant
            ls == lines_spec(v@),
            lines@.len() == ls.len(),
            forall|j: int|
                0 <= j < lines@.len() ==> {
                    &&& (#[trigger] lines@[j]).0 <= lines@[j].1 <= v@.len()
                    &&& v@.subrange(lines@[j].0 as int, lines@[j].1 as int) == ls[j]
                },
            k <= lines@.len(),
            first_with_prefix(ls.take(k as int), p@) is None,
        decreases lines@.len() - k,
    {
        let (a, b) = lines[k];
        assert(ls.take(k + 1).drop_last() =~= ls.take(k as int));
        if has_prefix(v, a, b, p) {
            assert(v@.subrange(a + p@.len(), b as int) =~= ls[k as int].skip(p@.len() as int));
            proof {
                lemma_first_prefix_stays(ls, p@, k + 1);
            }
            return Some((a + p.len(), b));
        }
        k = k + 1;
    }
    assert(ls.take(k as int) =~= ls);
    None
}

fn hex_digit_value(c: char) -> (r: Option<u128>)
    ensures
        match hex_value(c) {
            Some(d) => r == Some(d as u128),
            None => r is None,
        },
{
    if '0' <= c && c <= '9' {
        Some((c as u32 - '0' as u32) as u128)
    } else if 'a' <= c && c <= 'f' {
        Some((c as u32 - 'a' as u32 + 10) as u128)
    } else if 'A' <= c && c <= 'F' {
        Some((c as u32 - 'A' as u32 + 10) as u128)
    } else {
        None
    }
}

proof fn lemma_hex_prefix_le(s: Seq<char>, i: int)
    requires
        0 <= i <= s.len(),
    ensures
        hex_digits_value(s.take(i)) <= hex_digits_value(s),
    decreases s.len() - i,
{
    if i < s.len() {
        lemma_hex_prefix_le(s, i + 1);
        assert(s.take(i + 1).drop_last() =~= s.take(i));
    } else {
        assert(s.take(i) =~= s);
    }
}

/// `u128::from_str_radix(v[lo..hi], 16)`.
fn parse_hex_range(v: &Vec<char>, lo: usize, hi: usize) -> (r: Option<u128>)
    requires
        lo <= hi <= v@.len(),
    ensures
        match parse_hex_u128(v@.subrange(lo as int, hi as int)) {
            Some(n) => r == Some(n as u128),
            None => r is None,
        },
{
    let ghost whole = v@.subrange(lo as int, hi as int);
    let mut start = lo;
    if lo < hi && v[lo] == '+' {
        start = lo + 1;
    }
    let ghost d = v@.subrange(start as int, hi as int);
    assert(d =~= unsigned_digits(whole));
    if start == hi {
        return None;
    }
    let mut acc: u128 = 0;
    let mut i = start;
    while i < hi
        invariant
            lo <= start <= i <= hi <= v@.len(),
            whole == v@.subrange(lo as int, hi as int),
            d == v@.subrange(start as int, hi as int),
            d == unsigned_digits(whole),
            acc as nat == hex_digits_value(d.take(i - start)),
            forall|k: int| 0 <= k < i - start ==> (#[trigger] hex_value(d[k])) is Some,
        decreases hi - i,
    {
        let c = v[i];
        let dv = match hex_digit_value(c) {
            Some(x) => x,
            None => {
                assert(hex_value(d[i - start]) is None);
                assert(!all_hex(d));
                return None;
            },
        };
        assert(d.take(i + 1 - start).drop_last() =~= d.take(i - start));
        assert(d.take(i + 1 - start).last() == c);
        if acc > (u128::MAX - dv) / 16 {
            proof {
                lemma_hex_prefix_le(d, i + 1 - start);
                assert(hex_digits_value(d.take(i + 1 - start)) == acc * 16 + dv);
                assert(acc * 16 + dv > u128::MAX) by (nonlinear_arith)
                    requires
                        acc > (u128::MAX - dv) / 16,
                        dv < 16,
                ;
            }
            return None;
        }
        assert(acc * 16 + dv <= u128::MAX) by (nonlinear_arith)
            requires
                acc <= (u128::MAX - dv) / 16,
                dv < 16,
        ;
        acc = acc * 16 + dv;
        i = i + 1;
    }
    assert(d.take(hi - start) =~= d);
    Some(acc)
}

/// Whether the status text says the process holds `CAP_NET_RAW`.
pub fn has_cap_net_raw(status: &str) -> (r: bool)
    ensures
        r == status_says_cap_net_raw(status@),
{
    let v = chars_of(status);
    let lines = line_ranges(&v);
    let mut tab: Vec<char> = Vec::new();
    tab.push('C');
    tab.push('a');
    tab.push('p');
    tab.push('E');
    tab.push('f');
    tab.push('f');
    tab.push(':');
    let mut plain: Vec<char> = Vec::new();
    plain.push('C');
    plain.push('a');
    plain.push('p');
    plain.push('E');
    plain.push('f');
    plain.push('f');
    plain.push(':');
    assert(plain@ =~= cap_prefix());
    tab.push('\t');
    assert(tab@ =~= cap_tab_prefix());
    let found = match find_prefixed_line(&v, &lines, &tab) {
        Some(x) => Some(x),
        None => find_prefixed_line(&v, &lines, &plain),
    };
    match found {
        None => false,
        Some((a, b)) => {
            let (c, d) = trim_range(&v, a, b);
            match parse_hex_range(&v, c, d) {
                None => false,
                Some(mask) => (mask / 8192) % 2 == 1,
            }
        },
    }
}

/// Whether raw sockets may be opened: running as root or holding `CAP_NET_RAW`.
pub fn has_raw_socket_privileges(status: &str) -> (r: bool)
    ensures
        r == (status_says_root(status@) || status_says_cap_net_raw(status@)),
{
    is_effective_root(status) || has_cap_net_raw(status)
}

/// The lines of the hint shown when raw sockets are refused: how to grant
/// `CAP_NET_RAW` to the program at `exe`, or to `/usr/local/bin/synapse`
/// when the program's path is unknown. The caller writes them to standard
/// error.
pub fn print_cap_net_raw_hint(exe: Option<&str>) -> (lines: Vec<String>)
    ensures
        lines@.len() == 2,
        lines@[0]@ == "Grant capability once with:"@,
        lines@[1]@ == "  sudo setcap cap_net_raw+ep "@ + match exe {
            Some(e) => e@,
            None => "/usr/local/bin/synapse"@,
        },
{
    let mut second = string_of("  sudo setcap cap_net_raw+ep ");
    match exe {
        Some(e) => second.append(e),
        None => second.append("/usr/local/bin/synapse"),
    }
    let mut lines: Vec<String> = Vec::new();
    lines.push(string_of("Grant capability once with:"));
    lines.push(second);
    lines
}

// ---------------------------------------------------------------------------
// Report lines
// ---------------------------------------------------------------------------

/// `s` padded with spaces on the right to at least `w` characters (`{:<w}`).
pub open spec fn pad_right(s: Seq<char>, w: nat) -> Seq<char> {
    if s.len() >= w {
        s
    } else {
        s + Seq::new((w - s.len()) as nat, |i: int| ' ')
    }
}

fn push_padded(out: &mut String, s: &String, w: usize)
    ensures
        final(out)@ == old(out)@ + pad_right(s@, w as nat),
{
    let ghost start = out@;
    out.append(s.as_str());
    let n = chars_of(s.as_str()).len();
    let mut k = n;
    while k < w
        invariant
            n == s@.len(),
            n <= k,
            k <= w || k == n,
            out@ == start + s@ + Seq::new((k - n) as nat, |i: int| ' '),
        decreases w - k,
    {
        let ghost before = out@;
        push_char(out, ' ');
        assert(Seq::new((k + 1 - n) as nat, |i: int| ' ') =~= Seq::new((k - n) as nat, |i: int| ' ').push(
            ' ',
        ));
        assert(out@ =~= start + s@ + Seq::new((k + 1 - n) as nat, |i: int| ' '));
        k = k + 1;
    }
    assert(out@ =~= start + pad_right(s@, w as nat));
}

/// How a host is named in the report: its address text alone when its name
/// is that text, else `name (address)`.
pub open spec fn host_display_text(hostname: Seq<char>, ip_text: Seq<char>) -> Seq<char> {
    if hostname == ip_text {
        ip_text
    } else {
        hostname + " ("@ + ip_text + ")"@
    }
}

/// How a host is named in the report.
pub fn host_display(hostname: &str, ip_text: &str) -> (r: String)
    ensures
        r@ == host_display_text(hostname@, ip_text@),
{
    let h = string_of(hostname);
    let i = string_of(ip_text);
    if h == i {
        i
    } else {
        let mut r = h;
        r.append(" (");
        r.append(ip_text);
        r.append(")");
        r
    }
}

/// The entries of a port map for the ports below `count`, in port order.
pub open spec fn entries_below(m: Map<u16, PortStatus>, count: nat) -> Seq<(u16, PortStatus)>
    decreases count,
{
    if count == 0 {
        Seq::empty()
    } else {
        let p = (count - 1) as u16;
        let done = entries_below(m, (count - 1) as nat);
        if m.contains_key(p) {
            done.push((p, m[p]))
        } else {
            done
        }
    }
}

/// The entries of a port map in increasing port order.
pub open spec fn sorted_entries(m: Map<u16, PortStatus>) -> Seq<(u16, PortStatus)> {
    entries_below(m, 65536)
}

proof fn lemma_entries_len(m: Map<u16, PortStatus>, count: nat)
    ensures
        entries_below(m, count).len() <= count,
    decreases count,
{
    if count > 0 {
        lemma_entries_len(m, (count - 1) as nat);
    }
}

/// The entries of a port map in increasing port order.
pub fn sorted_statuses(ports: &HashMap<u16, PortStatus>) -> (r: Vec<(u16, PortStatus)>)
    ensures
        r@ == sorted_entries(ports@),
        r@.len() <= 65536,
{
    let mut r: Vec<(u16, PortStatus)> = Vec::new();
    let mut p: u32 = 0;
    while p < 65536
        invariant
            p <= 65536,
            r@ == entries_below(ports@, p as nat),
        decreases 65536 - p,
    {
        match ports.get(&(p as u16)) {
            Some(s) => {
                r.push((p as u16, *s));
            },
            None => {},
        }
        p = p + 1;
    }
    proof {
        lemma_entries_len(ports@, 65536);
    }
    r
}

/// How many entries have state `s`.
pub open spec fn count_status(e: Seq<(u16, PortStatus)>, s: PortStatus) -> nat
    decreases e.len(),
{
    if e.len() == 0 {
        0
    } else {
        count_status(e.drop_last(), s) + if e.last().1 == s {
            1nat
        } else {
            0nat
        }
    }
}

proof fn lemma_count_status_len(e: Seq<(u16, PortStatus)>, s: PortStatus)
    ensures
        count_status(e, s) <= e.len(),
    decreases e.len(),
{
    if e.len() > 0 {
        lemma_count_status_len(e.drop_last(), s);
    }
}

/// The numbers of open, closed, filtered and open-or-filtered entries.
pub fn status_counts(e: &Vec<(u16, PortStatus)>) -> (r: (usize, usize, usize, usize))
    ensures
        r.0 == count_status(e@, PortStatus::Open),
        r.1 == count_status(e@, PortStatus::Closed),
        r.2 == count_status(e@, PortStatus::Filtered),
        r.3 == count_status(e@, PortStatus::OpenFiltered),
{
    let mut c: (usize, usize, usize, usize) = (0, 0, 0, 0);
    let mut i: usize = 0;
    while i < e.len()
        invariant
            i <= e@.len(),
            c.0 == count_status(e@.take(i as int), PortStatus::Open),
            c.1 == count_status(e@.take(i as int), PortStatus::Closed),
            c.2 == count_status(e@.take(i as int), PortStatus::Filtered),
            c.3 == count_status(e@.take(i as int), PortStatus::OpenFiltered),
        decreases e@.len() - i,
    {
        let ghost t = e@.take(i + 1);
        assert(t.drop_last() =~= e@.take(i as int));
        proof {
            lemma_count_status_len(e@.take(i as int), PortStatus::Open);
            lemma_count_status_len(e@.take(i as int), PortStatus::Closed);
            lemma_count_status_len(e@.take(i as int), PortStatus::Filtered);
            lemma_count_status_len(e@.take(i as int), PortStatus::OpenFiltered);
        }
        match e[i].1 {
            PortStatus::Open => c.0 = c.0 + 1,
            PortStatus::Closed => c.1 = c.1 + 1,
            PortStatus::Filtered => c.2 = c.2 + 1,
            PortStatus::OpenFiltered => c.3 = c.3 + 1,
        }
        i = i + 1;
    }
    assert(e@.take(i as int) =~= e@);
    c
}

/// The count line of a host's report.
pub open spec fn summary_line_text(total: nat, open: nat, closed: nat, filtered: nat, open_filtered: nat) -> Seq<char> {
    "  "@ + decimal(total) + "/"@ + decimal(total) + " ports — "@ + decimal(open) + " open, "@
        + decimal(closed) + " closed, "@ + decimal(filtered) + " filtered, "@ + decimal(
        open_filtered,
    ) + " open|filtered"@
}

/// The count line of a host's report: the number of ports scanned and how
/// many were found in each state.
pub fn summary_line(total: usize, counts: (usize, usize, usize, usize)) -> (r: String)
    ensures
        r@ == summary_line_text(total as nat, counts.0 as nat, counts.1 as nat, counts.2 as nat, counts.3 as nat),
{
    let mut r = string_of("  ");
    push_decimal(&mut r, total as u64);
    r.append("/");
    push_decimal(&mut r, total as u64);
    r.append(" ports — ");
    push_decimal(&mut r, counts.0 as u64);
    r.append(" open, ");
    push_decimal(&mut r, counts.1 as u64);
    r.append(" closed, ");
    push_decimal(&mut r, counts.2 as u64);
    r.append(" filtered, ");
    push_decimal(&mut r, counts.3 as u64);
    r.append(" open|filtered");
    r
}

/// One row of a host's port table: the port as `<n>/tcp` in 9 columns, the
/// state in 12, then the service; with probe information the service takes
/// 14 columns and the information follows.
pub open spec fn port_row_text(port: u16, status: PortStatus, service: Seq<char>, info: Option<Seq<char>>) -> Seq<char> {
    let port_col = pad_right(decimal(port as nat) + "/tcp"@, 9);
    let state_col = pad_right(status_text(status), 12);
    match info {
        Some(i) => "  "@ + port_col + " "@ + state_col + " "@ + pad_right(service, 14) + " "@ + i,
        None => "  "@ + port_col + " "@ + state_col + " "@ + service,
    }
}

/// One row of a host's port table.
pub fn port_row(port: u16, status: PortStatus, service: &str, info: Option<&str>) -> (r: String)
    ensures
        r@ == port_row_text(
            port,
            status,
            service@,
            match info {
                Some(i) => Some(i@),
                None => None,
            },
        ),
{
    let mut col = String::new();
    push_decimal(&mut col, port as u64);
    col.append("/tcp");
    let mut r = string_of("  ");
    push_padded(&mut r, &col, 9);
    r.append(" ");
    let st = status_label(status);
    push_padded(&mut r, &st, 12);
    r.append(" ");
    match info {
        Some(i) => {
            let sv = string_of(service);
            push_padded(&mut r, &sv, 14);
            r.append(" ");
            r.append(i);
        },
        None => {
            r.append(service);
        },
    }
    r
}

/// The line of the diff section for one changed port.
pub open spec fn change_line_text(c: (Seq<char>, u16, Seq<char>, Seq<char>)) -> Seq<char> {
    "  [CHANGED]   "@ + c.0 + ":"@ + decimal(c.1 as nat) + " "@ + c.2 + " → "@ + c.3
}

/// The first line of a report: the scan type, the numbers of hosts and
/// ports, the timeout and the concurrency.
pub open spec fn start_line_text(t: ScanType, hosts: nat, ports: nat, timeout: nat, threads: nat) -> Seq<char> {
    "Starting synapse ("@ + scan_type_title(t) + " scan) against "@ + decimal(hosts) + " host(s), "@
        + decimal(ports) + " ports | timeout: "@ + decimal(timeout) + "ms | threads: "@ + decimal(
        threads,
    )
}

/// The first line of a report.
pub fn start_line(t: ScanType, hosts: usize, ports: usize, timeout: u64, threads: usize) -> (r: String)
    ensures
        r@ == start_line_text(t, hosts as nat, ports as nat, timeout as nat, threads as nat),
{
    let mut r = string_of("Starting synapse (");
    let name = scan_type_name(t);
    r.append(name.as_str());
    r.append(" scan) against ");
    push_decimal(&mut r, hosts as u64);
    r.append(" host(s), ");
    push_decimal(&mut r, ports as u64);
    r.append(" ports | timeout: ");
    push_decimal(&mut r, timeout);
    r.append("ms | threads: ");
    push_decimal(&mut r, threads as u64);
    r
}

/// The line naming the public resolvers that were left out of the targets.
pub open spec fn excluded_line_text(addrs: Seq<Seq<char>>) -> Seq<char> {
    "Excluded "@ + decimal(addrs.len()) + " sensitive DNS server(s): "@ + crate::text::join_with(
        addrs,
        ", "@,
    )
}

/// The line naming the public resolvers that were left out of the targets,
/// given their address texts.
pub fn excluded_line(addrs: &Vec<String>) -> (r: String)
    ensures
        r@ == excluded_line_text(crate::text::string_views(addrs@)),
{
    let mut r = string_of("Excluded ");
    push_decimal(&mut r, addrs.len() as u64);
    r.append(" sensitive DNS server(s): ");
    let list = crate::text::join_strings(addrs, ", ");
    r.append(list.as_str());
    r
}

/// The discovery line of one host: `[UP  ]` or `[DOWN]`, then its name.
pub open spec fn host_status_text(up: bool, display: Seq<char>) -> Seq<char> {
    "  ["@ + (if up {
        "UP  "@
    } else {
        "DOWN"@
    }) + "]  "@ + display
}

/// The discovery line of one host.
pub fn host_status_line(up: bool, display: &str) -> (r: String)
    ensures
        r@ == host_status_text(up, display@),
{
    let mut r = string_of("  [");
    if up {
        r.append("UP  ");
    } else {
        r.append("DOWN");
    }
    r.append("]  ");
    r.append(display);
    r
}

/// The line announcing how many hosts are up.
pub open spec fn live_count_text(n: nat) -> Seq<char> {
    "\n"@ + decimal(n) + " live host(s) to scan"@
}

/// The line announcing how many hosts are up.
pub fn live_count_line(n: usize) -> (r: String)
    ensures
        r@ == live_count_text(n as nat),
{
    let mut r = string_of("\n");
    push_decimal(&mut r, n as u64);
    r.append(" live host(s) to scan");
    r
}

/// The two head lines of a host's port table: the column names (with an
/// INFO column when probing) and a rule of 60 or 40 characters.
pub open spec fn port_table_head_text(probe: bool) -> Seq<Seq<char>> {
    if probe {
        seq![
            "  "@ + pad_right("PORT"@, 9) + " "@ + pad_right("STATE"@, 12) + " "@ + pad_right("SERVICE"@, 14)
                + " "@ + "INFO"@,
            "  "@ + rule_text(60),
        ]
    } else {
        seq!["  "@ + pad_right("PORT"@, 9) + " "@ + pad_right("STATE"@, 12) + " "@ + "SERVICE"@, "  "@ + rule_text(40)]
    }
}

/// The two head lines of a host's port table.
pub fn port_table_head(probe: bool) -> (r: Vec<String>)
    ensures
        crate::text::string_views(r@) == port_table_head_text(probe),
{
    let mut names = string_of("  ");
    push_padded(&mut names, &string_of("PORT"), 9);
    names.append(" ");
    push_padded(&mut names, &string_of("STATE"), 12);
    names.append(" ");
    let mut rule = string_of("  ");
    if probe {
        push_padded(&mut names, &string_of("SERVICE"), 14);
        names.append(" ");
        names.append("INFO");
        let line = rule_line(60);
        rule.append(line.as_str());
    } else {
        names.append("SERVICE");
        let line = rule_line(40);
        rule.append(line.as_str());
    }
    let mut r: Vec<String> = Vec::new();
    r.push(names);
    r.push(rule);
    assert(crate::text::string_views(r@) =~= seq![r@[0]@, r@[1]@]);
    r
}

/// The diff section of a report: a line saying nothing changed, or a header
/// naming when the earlier scan ran followed by one line per new host, per
/// lost host and per changed port.
pub open spec fn diff_lines_match(d: DiffResult, prev_label: Seq<char>, lines: Seq<Seq<char>>) -> bool {
    let news = texts(d.new_hosts@);
    let losts = texts(d.lost_hosts@);
    let changes = change_views(d.port_changes@);
    if news.len() == 0 && losts.len() == 0 && changes.len() == 0 {
        lines == seq!["\nDiff: no changes since last scan"@]
    } else {
        lines == seq!["\nDiff vs scan from "@ + prev_label] + news.map_values(
            |h: Seq<char>| "  [NEW HOST]  "@ + h,
        ) + losts.map_values(|h: Seq<char>| "  [GONE]      "@ + h) + changes.map_values(
            |c: (Seq<char>, u16, Seq<char>, Seq<char>)| change_line_text(c),
        )
    }
}

fn labelled_lines(prefix: &str, items: &Vec<String>, out: &mut Vec<String>)
    ensures
        crate::text::string_views(final(out)@) == crate::text::string_views(old(out)@) + texts(
            items@,
        ).map_values(|h: Seq<char>| prefix@ + h),
{
    let ghost start = crate::text::string_views(out@);
    let mut i: usize = 0;
    while i < items.len()
        invariant
            i <= items@.len(),
            crate::text::string_views(out@) == start + texts(items@.take(i as int)).map_values(
                |h: Seq<char>| prefix@ + h,
            ),
        decreases items@.len() - i,
    {
        let mut line = string_of(prefix);
        line.append(items[i].as_str());
        let ghost before = out@;
        out.push(line);
        assert(texts(items@.take(i + 1)).map_values(|h: Seq<char>| prefix@ + h) =~= texts(
            items@.take(i as int),
        ).map_values(|h: Seq<char>| prefix@ + h).push(prefix@ + items@[i as int]@));
        assert(crate::text::string_views(out@) =~= crate::text::string_views(before).push(
            prefix@ + items@[i as int]@,
        ));
        i = i + 1;
    }
    assert(items@.take(i as int) =~= items@);
}

/// The diff section of a report, given the label of the earlier scan's time.
pub fn diff_lines(d: &DiffResult, prev_label: &str) -> (r: Vec<String>)
    ensures
        diff_lines_match(*d, prev_label@, crate::text::string_views(r@)),
{
    let mut out: Vec<String> = Vec::new();
    if d.new_hosts.len() == 0 && d.lost_hosts.len() == 0 && d.port_changes.len() == 0 {
        out.push(string_of("\nDiff: no changes since last scan"));
        assert(crate::text::string_views(out@) =~= seq!["\nDiff: no changes since last scan"@]);
        return out;
    }
    let mut head = string_of("\nDiff vs scan from ");
    head.append(prev_label);
    out.push(head);
    assert(crate::text::string_views(out@) =~= seq!["\nDiff vs scan from "@ + prev_label@]);
    labelled_lines("  [NEW HOST]  ", &d.new_hosts, &mut out);
    labelled_lines("  [GONE]      ", &d.lost_hosts, &mut out);
    let ghost mid = crate::text::string_views(out@);
    let mut i: usize = 0;
    while i < d.port_changes.len()
        invariant
            i <= d.port_changes@.len(),
            crate::text::string_views(out@) == mid + change_views(d.port_changes@.take(i as int)).map_values(|c: (Seq<char>, u16, Seq<char>, Seq<char>)| change_line_text(c)),
        decreases d.port_changes@.len() - i,
    {
        let c = &d.port_changes[i];
        let mut line = string_of("  [CHANGED]   ");
        line.append(c.ip.as_str());
        line.append(":");
        push_decimal(&mut line, c.port as u64);
        line.append(" ");
        line.append(c.from.as_str());
        line.append(" → ");
        line.append(c.to.as_str());
        assert(line@ =~= change_line_text(d.port_changes@[i as int]@));
        let ghost before = out@;
        out.push(line);
        assert(change_views(d.port_changes@.take(i + 1)).map_values(|c: (Seq<char>, u16, Seq<char>, Seq<char>)| change_line_text(c)) =~= change_views(
            d.port_changes@.take(i as int),
        ).map_values(|c: (Seq<char>, u16, Seq<char>, Seq<char>)| change_line_text(c)).push(change_line_text(d.port_changes@[i as int]@)));
        assert(crate::text::string_views(out@) =~= crate::text::string_views(before).push(
            change_line_text(d.port_changes@[i as int]@),
        ));
        i = i + 1;
    }
    assert(d.port_changes@.take(i as int) =~= d.port_changes@);
    out
}

/// The complexity class the benchmark section names for a scan type, with
/// `batches = ⌈ports / threads⌉`.
pub open spec fn complexity_text(t: ScanType, ports: nat, threads: nat) -> Seq<char> {
    let batches: nat = ((ports + threads - 1) as nat) / threads;
    match t {
        ScanType::Connect => if threads >= ports {
            "O(H × timeout)  [T≥P: all "@ + decimal(ports) + " ports fit in one async batch]"@
        } else {
            "O(H × ⌈P/T⌉ × timeout)  [⌈"@ + decimal(ports) + "/"@ + decimal(threads) + "⌉="@
                + decimal(batches) + " batches per host]"@
        },
        ScanType::Udp => if threads >= ports {
            "O(H × timeout)  [T≥P: all "@ + decimal(ports) + " ports fit in one async batch, UDP]"@
        } else {
            "O(H × ⌈P/T⌉ × timeout)  [⌈"@ + decimal(ports) + "/"@ + decimal(threads) + "⌉="@
                + decimal(batches) + " batches per host, UDP]"@
        },
        _ => "O(H × P × 5ms_delay + 5s_window)  [sequential raw blast + fixed listen window]"@,
    }
}

/// The complexity class the benchmark section names for a scan type.
pub fn complexity_note(t: ScanType, ports: usize, threads: usize) -> (r: String)
    requires
        threads >= 1,
        ports + threads - 1 <= usize::MAX,
    ensures
        r@ == complexity_text(t, ports as nat, threads as nat),
{
    let batches = (ports + (threads - 1)) / threads;
    match t {
        ScanType::Connect | ScanType::Udp => {
            let udp = match t {
                ScanType::Udp => true,
                _ => false,
            };
            if threads >= ports {
                let mut r = string_of("O(H × timeout)  [T≥P: all ");
                push_decimal(&mut r, ports as u64);
                if udp {
                    r.append(" ports fit in one async batch, UDP]");
                } else {
                    r.append(" ports fit in one async batch]");
                }
                r
            } else {
                let mut r = string_of("O(H × ⌈P/T⌉ × timeout)  [⌈");
                push_decimal(&mut r, ports as u64);
                r.append("/");
                push_decimal(&mut r, threads as u64);
                r.append("⌉=");
                push_decimal(&mut r, batches as u64);
                if udp {
                    r.append(" batches per host, UDP]");
                } else {
                    r.append(" batches per host]");
                }
                r
            }
        },
        _ => string_of(
            "O(H × P × 5ms_delay + 5s_window)  [sequential raw blast + fixed listen window]",
        ),
    }
}

/// A row of the saved-scan history.
pub struct SavedScanRow {
    pub id: i64,
    pub target: String,
    pub scan_type: String,
    pub total_hosts: i64,
    pub live_hosts: i64,
    pub ports: i64,
    pub bench_enabled: bool,
    pub created_at: i64,
}

/// A horizontal rule of `n` box-drawing characters.
pub open spec fn rule_text(n: nat) -> Seq<char> {
    Seq::new(n, |i: int| '─')
}

/// A horizontal rule of `n` box-drawing characters.
pub fn rule_line(n: usize) -> (r: String)
    ensures
        r@ == rule_text(n as nat),
{
    let mut r = String::new();
    let mut k: usize = 0;
    while k < n
        invariant
            k <= n,
            r@ == rule_text(k as nat),
        decreases n - k,
    {
        push_char(&mut r, '─');
        assert(r@ =~= rule_text((k + 1) as nat));
        k = k + 1;
    }
    r
}

/// An integer in decimal, with a minus sign when negative (`{}`).
pub open spec fn int_text(n: int) -> Seq<char> {
    padded_int(n, 0)
}

/// The column heads of the history table.
pub open spec fn history_header_text() -> Seq<char> {
    pad_right("ID"@, 6) + " "@ + pad_right("TARGET"@, 20) + " "@ + pad_right("TYPE"@, 8) + " "@
        + pad_right("HOSTS"@, 10) + " "@ + pad_right("LIVE"@, 9) + " "@ + pad_right("PORTS"@, 7)
        + " "@ + pad_right("BENCH"@, 7) + " "@ + "WHEN"@
}

/// One row of the history table, given the label of the scan's time.
pub open spec fn history_row_text(row: SavedScanRow, when: Seq<char>) -> Seq<char> {
    pad_right(int_text(row.id as int), 6) + " "@ + pad_right(clip_text(row.target@, 20), 20) + " "@
        + pad_right(row.scan_type@, 8) + " "@ + pad_right(int_text(row.total_hosts as int), 10)
        + " "@ + pad_right(int_text(row.live_hosts as int), 9) + " "@ + pad_right(
        int_text(row.ports as int),
        7,
    ) + " "@ + pad_right(
        if row.bench_enabled {
            "yes"@
        } else {
            "no"@
        },
        7,
    ) + " "@ + when
}

/// `line` is the history row of `row`: its time label is that of the
/// creation time read as an unsigned count of seconds.
pub open spec fn history_row_matches(row: SavedScanRow, line: Seq<char>) -> bool {
    exists|when: Seq<char>|
        ts_label_matches(row.created_at as u64, when) && line == #[trigger] history_row_text(
            row,
            when,
        )
}

fn push_int_padded(out: &mut String, n: i64, w: usize)
    ensures
        final(out)@ == old(out)@ + pad_right(int_text(n as int), w as nat),
{
    let mut t = String::new();
    push_padded_int(&mut t, n, 0);
    push_padded(out, &t, w);
}

fn history_header() -> (r: String)
    ensures
        r@ == history_header_text(),
{
    let mut r = String::new();
    push_padded(&mut r, &string_of("ID"), 6);
    r.append(" ");
    push_padded(&mut r, &string_of("TARGET"), 20);
    r.append(" ");
    push_padded(&mut r, &string_of("TYPE"), 8);
    r.append(" ");
    push_padded(&mut r, &string_of("HOSTS"), 10);
    r.append(" ");
    push_padded(&mut r, &string_of("LIVE"), 9);
    r.append(" ");
    push_padded(&mut r, &string_of("PORTS"), 7);
    r.append(" ");
    push_padded(&mut r, &string_of("BENCH"), 7);
    r.append(" ");
    r.append("WHEN");
    r
}

/// One row of the history table.
pub fn history_row(row: &SavedScanRow) -> (r: String)
    ensures
        history_row_matches(*row, r@),
{
    let mut r = String::new();
    push_int_padded(&mut r, row.id, 6);
    r.append(" ");
    let t = clip(row.target.as_str(), 20);
    push_padded(&mut r, &t, 20);
    r.append(" ");
    push_padded(&mut r, &row.scan_type, 8);
    r.append(" ");
    push_int_padded(&mut r, row.total_hosts, 10);
    r.append(" ");
    push_int_padded(&mut r, row.live_hosts, 9);
    r.append(" ");
    push_int_padded(&mut r, row.ports, 7);
    r.append(" ");
    let bench = if row.bench_enabled {
        string_of("yes")
    } else {
        string_of("no")
    };
    push_padded(&mut r, &bench, 7);
    r.append(" ");
    let when = ts_label(row.created_at as u64);
    r.append(when.as_str());
    assert(r@ =~= history_row_text(*row, when@));
    r
}

/// The lines `--history` prints: a line saying nothing was saved, or a
/// title naming the database, the column heads, a rule of 90 characters,
/// one row per saved scan, and a closing hint.
pub open spec fn history_lines_match(rows: Seq<SavedScanRow>, db_path: Seq<char>, lines: Seq<Seq<char>>) -> bool {
    if rows.len() == 0 {
        lines == seq!["No saved scans found in "@ + db_path]
    } else {
        &&& lines.len() == rows.len() + 4
        &&& lines[0] == "Saved Scan History ("@ + db_path + ")"@
        &&& lines[1] == history_header_text()
        &&& lines[2] == rule_text(90)
        &&& forall|i: int| 0 <= i < rows.len() ==> history_row_matches(rows[i], #[trigger] lines[i + 3])
        &&& lines[rows.len() + 3int] == "\nUse --history-raw-id <ID> to print raw output for one saved scan."@
    }
}

/// The lines of the saved-scan history listing.
pub fn render_history(rows: &Vec<SavedScanRow>, db_path: &str) -> (lines: Vec<String>)
    ensures
        history_lines_match(rows@, db_path@, crate::text::string_views(lines@)),
{
    let mut out: Vec<String> = Vec::new();
    if rows.len() == 0 {
        let mut l = string_of("No saved scans found in ");
        l.append(db_path);
        out.push(l);
        assert(crate::text::string_views(out@) =~= seq!["No saved scans found in "@ + db_path@]);
        return out;
    }
    let mut title = string_of("Saved Scan History (");
    title.append(db_path);
    title.append(")");
    out.push(title);
    out.push(history_header());
    out.push(rule_line(90));
    let mut i: usize = 0;
    while i < rows.len()
        invariant
            i <= rows@.len(),
            out@.len() == i + 3,
            out@[0]@ == "Saved Scan History ("@ + db_path@ + ")"@,
            out@[1]@ == history_header_text(),
            out@[2]@ == rule_text(90),
            forall|k: int| 0 <= k < i ==> history_row_matches(rows@[k], #[trigger] out@[k + 3]@),
        decreases rows@.len() - i,
    {
        let line = history_row(&rows[i]);
        out.push(line);
        i = i + 1;
    }
    out.push(string_of("\nUse --history-raw-id <ID> to print raw output for one saved scan."));
    proof {
        let v = crate::text::string_views(out@);
        assert forall|k: int| 0 <= k < rows@.len() implies history_row_matches(rows@[k], #[trigger] v[k + 3]) by {
            assert(v[k + 3] == out@[k + 3]@);
        }
    }
    out
}

} // verus!
