//! Reverse (PTR) name lookups: the query name, the query packet and the
//! reading of the answer's name.
use vstd::prelude::*;
use vstd::utf8::{decode_utf8, valid_utf8};
use vstd::string::StringSliceAdditionalSpecFns;
use crate::targets::IpAddress;
use crate::text::{decimal, push_char, push_decimal, string_of, utf8_text};

verus! {

/// Why a DNS answer gave no host name.
#[derive(PartialEq, Eq, Structural, Clone, Copy, Debug)]
pub enum DnsError {
    /// The answer count is zero.
    NoAnswer,
    /// A label of the answer name is not UTF-8.
    BadLabel,
}

// ---------------------------------------------------------------------------
// The reverse-lookup name
// ---------------------------------------------------------------------------

/// The lowercase hexadecimal digit of `d` (below sixteen).
pub open spec fn hex_digit(d: nat) -> char {
    if d < 10 {
        ('0' as int + d) as char
    } else {
        ('a' as int + d - 10) as char
    }
}

/// The `count` lowest nibbles of `x`, lowest first, each followed by a dot.
pub open spec fn nibble_labels(x: nat, count: nat) -> Seq<char>
    decreases count,
{
    if count == 0 {
        Seq::empty()
    } else {
        seq![hex_digit(x % 16), '.'] + nibble_labels(x / 16, (count - 1) as nat)
    }
}

/// The name a PTR query asks for: the octets in reverse under
/// `in-addr.arpa`, or the 32 nibbles in reverse under `ip6.arpa`.
pub open spec fn arpa_name(ip: IpAddress) -> Seq<char> {
    match ip {
        IpAddress::V4(x) => decimal(x as nat % 256) + seq!['.'] + decimal((x as nat / 256) % 256)
            + seq!['.'] + decimal((x as nat / 65536) % 256) + seq!['.'] + decimal(
            x as nat / 16777216,
        ) + ".in-addr.arpa"@,
        IpAddress::V6(x) => nibble_labels(x as nat, 32) + "ip6.arpa"@,
    }
}

fn hex_char(d: u128) -> (c: char)
    requires
        d < 16,
    ensures
        c == hex_digit(d as nat),
{
    if d < 10 {
        ((d as u8) + 48u8) as char
    } else {
        ((d as u8) + 87u8) as char
    }
}

/// The name a PTR query for `ip` asks for.
pub fn arpa_domain(ip: IpAddress) -> (r: String)
    ensures
        r@ == arpa_name(ip),
{
    match ip {
        IpAddress::V4(x) => {
            let mut s = String::new();
            push_decimal(&mut s, (x % 256) as u64);
            push_char(&mut s, '.');
            push_decimal(&mut s, ((x / 256) % 256) as u64);
            push_char(&mut s, '.');
            push_decimal(&mut s, ((x / 65536) % 256) as u64);
            push_char(&mut s, '.');
            push_decimal(&mut s, (x / 16777216) as u64);
            let tail = string_of(".in-addr.arpa");
            s.append(tail.as_str());
            assert(s@ =~= arpa_name(ip));
            s
        },
        IpAddress::V6(x) => {
            let mut s = String::new();
            let mut m: u128 = x;
            let mut k: u32 = 0;
            while k < 32
                invariant
                    k <= 32,
                    s@ + nibble_labels(m as nat, (32 - k) as nat) == nibble_labels(x as nat, 32),
                decreases 32 - k,
            {
                let ghost before = s@;
                push_char(&mut s, hex_char(m % 16));
                push_char(&mut s, '.');
                assert(nibble_labels(m as nat, (32 - k) as nat) == seq![hex_digit(m as nat % 16), '.']
                    + nibble_labels(m as nat / 16, (32 - k - 1) as nat));
                assert(s@ =~= before + seq![hex_digit(m as nat % 16), '.']);
                m = m / 16;
                k = k + 1;
            }
            assert(s@ =~= nibble_labels(x as nat, 32));
            let tail = string_of("ip6.arpa");
            s.append(tail.as_str());
            s
        },
    }
}

// ---------------------------------------------------------------------------
// The query packet
// ---------------------------------------------------------------------------

/// The two bytes of `n`, most significant first.
pub open spec fn be16(n: u16) -> Seq<u8> {
    seq![(n / 256) as u8, (n % 256) as u8]
}

/// The pieces of a byte string between the occurrences of `sep`
/// (`str::split` on an ASCII separator).
pub open spec fn split_bytes(s: Seq<u8>, sep: u8) -> Seq<Seq<u8>>
    decreases s.len(),
{
    if s.len() == 0 {
        seq![Seq::<u8>::empty()]
    } else {
        let p = split_bytes(s.drop_last(), sep);
        if s.last() == sep {
            p.push(Seq::<u8>::empty())
        } else {
            p.update(p.len() - 1, p.last().push(s.last()))
        }
    }
}

/// Each label as a length byte (the length cut to eight bits) and its bytes.
pub open spec fn encode_labels(labels: Seq<Seq<u8>>) -> Seq<u8>
    decreases labels.len(),
{
    if labels.len() == 0 {
        Seq::empty()
    } else {
        encode_labels(labels.drop_last()) + seq![labels.last().len() as u8] + labels.last()
    }
}

/// A one-question query with recursion desired, for `domain` with the given
/// record type, class IN, and message id `id`.
pub open spec fn query_bytes(id: u16, domain: Seq<u8>, record_type: u16) -> Seq<u8> {
    be16(id) + seq![1u8, 0u8, 0u8, 1u8, 0u8, 0u8, 0u8, 0u8, 0u8, 0u8] + encode_labels(
        split_bytes(domain, 46),
    ) + seq![0u8] + be16(record_type) + seq![0u8, 1u8]
}

proof fn lemma_split_bytes_nonempty(s: Seq<u8>, sep: u8)
    ensures
        split_bytes(s, sep).len() >= 1,
    decreases s.len(),
{
    if s.len() > 0 {
        lemma_split_bytes_nonempty(s.drop_last(), sep);
    }
}

fn push_be16(out: &mut Vec<u8>, n: u16)
    ensures
        final(out)@ == old(out)@ + be16(n),
{
    out.push((n / 256) as u8);
    out.push((n % 256) as u8);
    assert(out@ =~= old(out)@ + be16(n));
}

/// Appends the labels of `domain`, each with its length byte.
fn push_labels(out: &mut Vec<u8>, domain: &[u8])
    ensures
        final(out)@ == old(out)@ + encode_labels(split_bytes(domain@, 46)),
{
    let ghost start = out@;
    let mut label: Vec<u8> = Vec::new();
    let mut done: Vec<u8> = Vec::new();
    let mut i: usize = 0;
    while i < domain.len()
        invariant
            i <= domain@.len(),
            split_bytes(domain@.take(i as int), 46).last() == label@,
            encode_labels(split_bytes(domain@.take(i as int), 46).drop_last()) == done@,
        decreases domain@.len() - i,
    {
        let ghost t = domain@.take(i + 1);
        assert(t.drop_last() =~= domain@.take(i as int));
        proof {
            lemma_split_bytes_nonempty(domain@.take(i as int), 46);
        }
        let b = domain[i];
        if b == 46 {
            let ghost p = split_bytes(domain@.take(i as int), 46);
            done.push(label.len() as u8);
            let mut j: usize = 0;
            let ghost before = done@;
            while j < label.len()
                invariant
                    j <= label@.len(),
                    done@ == before + label@.take(j as int),
                decreases label@.len() - j,
            {
                done.push(label[j]);
                assert(label@.take(j + 1) =~= label@.take(j as int).push(label@[j as int]));
                j = j + 1;
            }
            assert(label@.take(j as int) =~= label@);
            assert(p.push(Seq::<u8>::empty()).drop_last() =~= p);
            assert(encode_labels(p) =~= encode_labels(p.drop_last()) + seq![p.last().len() as u8]
                + p.last());
            label = Vec::new();
        } else {
            let ghost p = split_bytes(domain@.take(i as int), 46);
            label.push(b);
            assert(p.update(p.len() - 1, p.last().push(b)).drop_last() =~= p.drop_last());
        }
        i = i + 1;
    }
    assert(domain@.take(i as int) =~= domain@);
    proof {
        lemma_split_bytes_nonempty(domain@, 46);
    }
    let ghost p = split_bytes(domain@, 46);
    let mut j: usize = 0;
    while j < done.len()
        invariant
            j <= done@.len(),
            out@ == start + done@.take(j as int),
        decreases done@.len() - j,
    {
        out.push(done[j]);
        assert(done@.take(j + 1) =~= done@.take(j as int).push(done@[j as int]));
        j = j + 1;
    }
    assert(done@.take(j as int) =~= done@);
    out.push(label.len() as u8);
    let ghost mid = out@;
    let mut j: usize = 0;
    while j < label.len()
        invariant
            j <= label@.len(),
            out@ == mid + label@.take(j as int),
        decreases label@.len() - j,
    {
        out.push(label[j]);
        assert(label@.take(j + 1) =~= label@.take(j as int).push(label@[j as int]));
        j = j + 1;
    }
    assert(label@.take(j as int) =~= label@);
    assert(encode_labels(p) == encode_labels(p.drop_last()) + seq![p.last().len() as u8] + p.last());
    assert(out@ =~= start + encode_labels(p));
}

/// The query for `domain` with the given record type and message id.
pub fn build_query_with_id(id: u16, domain: &str, record_type: u16) -> (r: Vec<u8>)
    ensures
        r@ == query_bytes(id, domain.spec_bytes(), record_type),
{
    let mut buf: Vec<u8> = Vec::new();
    push_be16(&mut buf, id);
    push_be16(&mut buf, 0x0100);
    push_be16(&mut buf, 1);
    push_be16(&mut buf, 0);
    push_be16(&mut buf, 0);
    push_be16(&mut buf, 0);
    push_labels(&mut buf, domain.as_bytes());
    buf.push(0);
    let ghost mid = buf@;
    push_be16(&mut buf, record_type);
    push_be16(&mut buf, 1);
    assert(buf@ =~= query_bytes(id, domain.spec_bytes(), record_type));
    buf
}

/// A random 16-bit value from the thread-local generator (`rand::random`).
#[verifier::external_body]
fn random_u16() -> u16 {
    rand::random::<u16>()
}

/// The query for `domain` with the given record type and a random message id.
pub fn build_query(domain: &str, record_type: u16) -> (r: Vec<u8>)
    ensures
        exists|id: u16| r@ == query_bytes(id, domain.spec_bytes(), record_type),
{
    let id = random_u16();
    build_query_with_id(id, domain, record_type)
}

// ---------------------------------------------------------------------------
// Reading the answer
// ---------------------------------------------------------------------------

/// The text of a label: its bytes decoded as UTF-8, or `None` if they are not UTF-8.
pub open spec fn label_text(b: Seq<u8>) -> Option<Seq<char>> {
    if valid_utf8(b) {
        Some(decode_utf8(b))
    } else {
        None
    }
}

/// Texts joined by dots.
pub open spec fn join_dots(pieces: Seq<Seq<char>>) -> Seq<char>
    decreases pieces.len(),
{
    if pieces.len() == 0 {
        Seq::empty()
    } else if pieces.len() == 1 {
        pieces[0]
    } else {
        join_dots(pieces.drop_last()) + seq!['.'] + pieces.last()
    }
}

/// The pieces of the name at `pos`: each label's text, ending either at a
/// zero byte or at a compression pointer, whose whole name (already joined)
/// is the last piece. `None` where reading leaves the buffer or follows more
/// than `depth` pointers; `Some(Err(..))` at the first label that is not UTF-8.
pub open spec fn name_pieces(buf: Seq<u8>, pos: int, depth: nat) -> Option<
    Result<Seq<Seq<char>>, DnsError>,
>
    decreases depth, buf.len() - pos,
{
    if pos < 0 || pos >= buf.len() {
        None
    } else {
        let l = buf[pos];
        if l == 0 {
            Some(Ok(Seq::empty()))
        } else if l >= 0xC0 {
            if pos + 1 >= buf.len() || depth == 0 {
                None
            } else {
                let target = (l - 0xC0) * 256 + buf[pos + 1];
                match name_pieces(buf, target, (depth - 1) as nat) {
                    None => None,
                    Some(Err(e)) => Some(Err(e)),
                    Some(Ok(ps)) => Some(Ok(seq![join_dots(ps)])),
                }
            }
        } else if pos + 1 + l > buf.len() {
            None
        } else {
            match label_text(buf.subrange(pos + 1, pos + 1 + l)) {
                None => Some(Err(DnsError::BadLabel)),
                Some(t) => match name_pieces(buf, pos + 1 + l, depth) {
                    None => None,
                    Some(Err(e)) => Some(Err(e)),
                    Some(Ok(ps)) => Some(Ok(seq![t] + ps)),
                },
            }
        }
    }
}

/// The name at `pos`, its pieces joined by dots.
pub open spec fn name_at(buf: Seq<u8>, pos: int, depth: nat) -> Option<Result<Seq<char>, DnsError>> {
    match name_pieces(buf, pos, depth) {
        None => None,
        Some(Err(e)) => Some(Err(e)),
        Some(Ok(ps)) => Some(Ok(join_dots(ps))),
    }
}

/// The position just past a name that may end in a compression pointer;
/// `None` where it leaves the buffer.
pub open spec fn skip_name(buf: Seq<u8>, pos: int) -> Option<int>
    decreases buf.len() - pos,
{
    if pos < 0 || pos >= buf.len() {
        None
    } else if buf[pos] == 0 {
        Some(pos + 1)
    } else if buf[pos] >= 0xC0 {
        Some(pos + 2)
    } else if pos + 1 + buf[pos] >= buf.len() {
        None
    } else {
        skip_name(buf, pos + 1 + buf[pos])
    }
}

/// The position just past a run of length-prefixed labels ending in a zero byte.
pub open spec fn skip_labels(buf: Seq<u8>, pos: int) -> Option<int>
    decreases buf.len() - pos,
{
    if pos < 0 || pos >= buf.len() {
        None
    } else if buf[pos] == 0 {
        Some(pos + 1)
    } else if pos + 1 + buf[pos] >= buf.len() {
        None
    } else {
        skip_labels(buf, pos + 1 + buf[pos])
    }
}

/// Where the data of the first answer record starts: past the header, the
/// question name and its type and class, the answer's owner name, and the
/// answer's type, class, TTL and data length.
pub open spec fn answer_data_start(buf: Seq<u8>) -> Option<int> {
    match skip_name(buf, 12) {
        None => None,
        Some(p1) => {
            let p2 = p1 + 4;
            if p2 >= buf.len() {
                None
            } else {
                let p3 = if buf[p2] >= 0xC0 {
                    Some(p2 + 2)
                } else {
                    skip_labels(buf, p2)
                };
                match p3 {
                    None => None,
                    Some(p) => Some(p + 10),
                }
            }
        }
    }
}

/// The host name a PTR answer holds: `NoAnswer` if the answer count is
/// zero, else the name at the start of the first answer's data. `None`
/// where the reading leaves the buffer or follows more than `depth` pointers.
pub open spec fn ptr_answer(buf: Seq<u8>, depth: nat) -> Option<Result<Seq<char>, DnsError>> {
    if buf.len() < 8 {
        None
    } else if buf[6] as nat * 256 + buf[7] as nat == 0 {
        Some(Err(DnsError::NoAnswer))
    } else {
        match answer_data_start(buf) {
            None => None,
            Some(p) => name_at(buf, p, depth),
        }
    }
}

/// The answer can be read: it stays in the buffer and its compression
/// pointers lead to an end.
pub open spec fn answer_readable(buf: Seq<u8>) -> bool {
    exists|depth: nat| #[trigger] ptr_answer(buf, depth) is Some
}

/// The text of a result read from an answer.
pub open spec fn result_text(r: Result<String, DnsError>) -> Result<Seq<char>, DnsError> {
    match r {
        Ok(s) => Ok(s@),
        Err(e) => Err(e),
    }
}

/// Once the name can be read with some pointer budget, a larger budget reads
/// the same.
proof fn lemma_name_pieces_more_depth(buf: Seq<u8>, pos: int, d: nat, e: nat)
    requires
        d <= e,
        name_pieces(buf, pos, d) is Some,
    ensures
        name_pieces(buf, pos, e) == name_pieces(buf, pos, d),
    decreases d, buf.len() - pos,
{
    if 0 <= pos < buf.len() {
        let l = buf[pos];
        if l != 0 && l >= 0xC0 {
            let target = (l - 0xC0) * 256 + buf[pos + 1];
            lemma_name_pieces_more_depth(buf, target, (d - 1) as nat, (e - 1) as nat);
        } else if l != 0 && pos + 1 + l <= buf.len() {
            if label_text(buf.subrange(pos + 1, pos + 1 + l)) is Some {
                lemma_name_pieces_more_depth(buf, pos + 1 + l, d, e);
            }
        }
    }
}

/// The positions of the compression pointers followed, in order, when
/// reading the name at `pos` with at most `depth` pointers.
pub open spec fn pointer_chain(buf: Seq<u8>, pos: int, depth: nat) -> Seq<int>
    decreases depth, buf.len() - pos,
{
    if pos < 0 || pos >= buf.len() {
        Seq::empty()
    } else {
        let l = buf[pos];
        if l == 0 {
            Seq::empty()
        } else if l >= 0xC0 {
            if pos + 1 >= buf.len() || depth == 0 {
                Seq::empty()
            } else {
                seq![pos] + pointer_chain(buf, (l - 0xC0) * 256 + buf[pos + 1], (depth - 1) as nat)
            }
        } else if pos + 1 + l > buf.len() {
            Seq::empty()
        } else {
            match label_text(buf.subrange(pos + 1, pos + 1 + l)) {
                None => Seq::empty(),
                Some(_) => pointer_chain(buf, pos + 1 + l, depth),
            }
        }
    }
}

/// A readable name follows at most `depth` pointers, all at positions in
/// the buffer, and stays readable with exactly as many as it follows.
proof fn lemma_chain_facts(buf: Seq<u8>, pos: int, d: nat, e: nat)
    requires
        name_pieces(buf, pos, d) is Some,
    ensures
        pointer_chain(buf, pos, d).len() <= d,
        forall|k: int|
            0 <= k < pointer_chain(buf, pos, d).len() ==> 0 <= #[trigger] pointer_chain(buf, pos, d)[k]
                < buf.len(),
        pointer_chain(buf, pos, d).len() <= e ==> name_pieces(buf, pos, e) is Some,
    decreases d, buf.len() - pos,
{
    let l = buf[pos];
    if l == 0 {
    } else if l >= 0xC0 {
        let target = (l - 0xC0) * 256 + buf[pos + 1];
        lemma_chain_facts(buf, target, (d - 1) as nat, (e - 1) as nat);
        let c = pointer_chain(buf, pos, d);
        let ct = pointer_chain(buf, target, (d - 1) as nat);
        assert(c == seq![pos] + ct);
        assert forall|k: int| 0 <= k < c.len() implies 0 <= #[trigger] c[k] < buf.len() by {
            if k > 0 {
                assert(c[k] == ct[k - 1]);
            }
        }
    } else {
        match label_text(buf.subrange(pos + 1, pos + 1 + l)) {
            None => {},
            Some(_) => {
                lemma_chain_facts(buf, pos + 1 + l, d, e);
            },
        }
    }
}

/// The `i`-th pointer followed is itself readable with the budget left
/// when it is reached, and whenever the name there can be read with some
/// budget, the name at `pos` can be read with `i` more.
proof fn lemma_chain_step(buf: Seq<u8>, pos: int, d: nat, i: int, e: nat)
    requires
        name_pieces(buf, pos, d) is Some,
        0 <= i < pointer_chain(buf, pos, d).len(),
        i <= e,
    ensures
        i <= d,
        name_pieces(buf, pointer_chain(buf, pos, d)[i], (d - i) as nat) is Some,
        name_pieces(buf, pointer_chain(buf, pos, d)[i], (e - i) as nat) is Some ==> name_pieces(
            buf,
            pos,
            e,
        ) is Some,
    decreases d, buf.len() - pos,
{
    let l = buf[pos];
    let c = pointer_chain(buf, pos, d);
    if l >= 0xC0 {
        let target = (l - 0xC0) * 256 + buf[pos + 1];
        let ct = pointer_chain(buf, target, (d - 1) as nat);
        assert(c == seq![pos] + ct);
        if i > 0 {
            lemma_chain_step(buf, target, (d - 1) as nat, i - 1, (e - 1) as nat);
            assert(c[i] == ct[i - 1]);
        }
    } else {
        lemma_chain_step(buf, pos + 1 + l, d, i, e);
    }
}

/// Pigeonhole: more positions than the buffer has bytes repeat one.
proof fn lemma_positions_repeat(c: Seq<int>, n: int)
    requires
        c.len() > n >= 0,
        forall|k: int| 0 <= k < c.len() ==> 0 <= #[trigger] c[k] < n,
    ensures
        exists|i: int, j: int| 0 <= i < j < c.len() && c[i] == c[j],
{
    if !(exists|i: int, j: int| 0 <= i < j < c.len() && c[i] == c[j]) {
        assert(c.no_duplicates()) by {
            assert forall|i: int, j: int| 0 <= i < c.len() && 0 <= j < c.len() && i != j implies c[i]
                != c[j] by {
                if i < j {
                    assert(!(c[i] == c[j]));
                } else {
                    assert(!(c[j] == c[i]));
                }
            }
        }
        c.unique_seq_to_set();
        vstd::set_lib::lemma_int_range(0, n);
        assert(c.to_set().subset_of(vstd::set_lib::set_int_range(0, n)));
        vstd::set_lib::lemma_len_subset(c.to_set(), vstd::set_lib::set_int_range(0, n));
    }
}

/// A name that can be read with some pointer budget can be read with a
/// budget as large as the buffer: a read that follows more pointers than
/// that passes some pointer twice, and can skip the loop between.
proof fn lemma_budget_of_buffer_length(buf: Seq<u8>, pos: int, d: nat)
    requires
        name_pieces(buf, pos, d) is Some,
    ensures
        name_pieces(buf, pos, buf.len()) is Some,
    decreases d,
{
    let c = pointer_chain(buf, pos, d);
    if c.len() <= buf.len() {
        lemma_chain_facts(buf, pos, d, buf.len());
    } else {
        lemma_chain_facts(buf, pos, d, d);
        lemma_positions_repeat(c, buf.len() as int);
        let (i, j) = choose|i: int, j: int| 0 <= i < j < c.len() && c[i] == c[j];
        let e = (d - (j - i)) as nat;
        lemma_chain_step(buf, pos, d, j, d);
        lemma_chain_step(buf, pos, d, i, e);
        assert(name_pieces(buf, c[i], (e - i) as nat) is Some);
        lemma_budget_of_buffer_length(buf, pos, e);
    }
}

/// An answer that can be read at all can be read following no more
/// compression pointers than it has bytes.
pub proof fn law_readable_within_length(buf: Seq<u8>)
    requires
        answer_readable(buf),
    ensures
        ptr_answer(buf, (buf.len() + 1) as nat) is Some,
{
    let d = choose|depth: nat| #[trigger] ptr_answer(buf, depth) is Some;
    if buf.len() >= 8 && buf[6] as nat * 256 + buf[7] as nat != 0 {
        let p = answer_data_start(buf)->Some_0;
        lemma_budget_of_buffer_length(buf, p, d);
        lemma_name_pieces_more_depth(buf, p, buf.len(), (buf.len() + 1) as nat);
    }
}

/// Joins texts with dots.
fn join_with_dots(pieces: &Vec<String>) -> (r: String)
    ensures
        r@ == join_dots(pieces@.map_values(|p: String| p@)),
{
    let ghost views = pieces@.map_values(|p: String| p@);
    let mut r = String::new();
    let mut k: usize = 0;
    while k < pieces.len()
        invariant
            k <= pieces@.len(),
            views == pieces@.map_values(|p: String| p@),
            r@ == join_dots(views.take(k as int)),
        decreases pieces@.len() - k,
    {
        assert(views.take(k + 1).drop_last() =~= views.take(k as int));
        if k > 0 {
            push_char(&mut r, '.');
        } else {
            assert(views.take(0) =~= Seq::<Seq<char>>::empty());
        }
        r.append(pieces[k].as_str());
        k = k + 1;
    }
    assert(views.take(k as int) =~= views);
    r
}

/// Reads the name at `start`: its labels, and at a compression pointer the
/// name it points to.
fn read_name_within(buf: &[u8], start: usize, Ghost(depth): Ghost<nat>) -> (r: Result<String, DnsError>)
    requires
        name_pieces(buf@, start as int, depth) is Some,
        buf@.len() < usize::MAX - 512,
    ensures
        name_at(buf@, start as int, depth) == Some(result_text(r)),
    decreases depth,
{
    let mut labels: Vec<String> = Vec::new();
    let mut pos: usize = start;
    loop
        invariant
            buf@.len() < usize::MAX - 512,
            name_pieces(buf@, pos as int, depth) is Some,
            name_pieces(buf@, start as int, depth) == match name_pieces(buf@, pos as int, depth) {
                Some(Ok(ps)) => Some(
                    Ok::<Seq<Seq<char>>, DnsError>(labels@.map_values(|p: String| p@) + ps),
                ),
                other => other,
            },
            labels@.len() == 0 ==> pos == start,
        decreases buf@.len() - pos,
    {
        let len = buf[pos];
        if len == 0 {
            assert(labels@.map_values(|p: String| p@) + Seq::<Seq<char>>::empty() =~= labels@.map_values(
                |p: String| p@,
            ));
            return Ok(join_with_dots(&labels));
        }
        if len >= 0xC0 {
            let hi = buf[pos] & 0x3F;
            assert(hi == len - 0xC0) by (bit_vector)
                requires
                    hi == len & 0x3F,
                    len >= 0xC0,
            ;
            let offset: usize = (hi as usize) * 256 + (buf[pos + 1] as usize);
            let rest = read_name_within(buf, offset, Ghost((depth - 1) as nat))?;
            let ghost before = labels@.map_values(|p: String| p@);
            labels.push(rest);
            assert(labels@.map_values(|p: String| p@) =~= before + seq![
                join_dots(name_pieces(buf@, offset as int, (depth - 1) as nat)->Some_0->Ok_0),
            ]);
            return Ok(join_with_dots(&labels));
        }
        let l = len as usize;
        let text = match utf8_text(&buf[pos + 1..pos + 1 + l]) {
            Some(t) => t,
            None => {
                return Err(DnsError::BadLabel);
            },
        };
        let ghost before = labels@.map_values(|p: String| p@);
        labels.push(string_of(text));
        assert(labels@.map_values(|p: String| p@) =~= before.push(text@));
        proof {
            let ps = name_pieces(buf@, pos + 1 + l, depth);
            if let Some(Ok(rest)) = ps {
                assert(before + (seq![text@] + rest) =~= before.push(text@) + rest);
            }
        }
        pos = pos + 1 + l;
    }
}

/// Reads the dotted name at `start` of a DNS message: its labels in order,
/// and at a compression pointer the name it points to. The name must be
/// readable within the message (every label and pointer in bounds, and the
/// pointers ending); a label that is not UTF-8 gives `BadLabel`.
pub fn read_name(buf: &[u8], start: usize) -> (r: Result<String, DnsError>)
    requires
        exists|depth: nat| #[trigger] name_pieces(buf@, start as int, depth) is Some,
        buf@.len() < usize::MAX - 512,
    ensures
        forall|depth: nat|
            #[trigger] name_pieces(buf@, start as int, depth) is Some ==> name_at(
                buf@,
                start as int,
                depth,
            ) == Some(result_text(r)),
{
    let ghost depth = choose|depth: nat| #[trigger] name_pieces(buf@, start as int, depth) is Some;
    let r = read_name_within(buf, start, Ghost(depth));
    proof {
        assert forall|d: nat| #[trigger] name_pieces(buf@, start as int, d) is Some implies name_at(
            buf@,
            start as int,
            d,
        ) == Some(result_text(r)) by {
            if d <= depth {
                lemma_name_pieces_more_depth(buf@, start as int, d, depth);
            } else {
                lemma_name_pieces_more_depth(buf@, start as int, depth, d);
            }
        }
    }
    r
}

/// Position just past a name that may end in a compression pointer.
fn skip_question_name(buf: &[u8], start: usize) -> (r: usize)
    requires
        skip_name(buf@, start as int) is Some,
        buf@.len() < usize::MAX - 512,
    ensures
        skip_name(buf@, start as int) == Some(r as int),
{
    let mut pos = start;
    loop
        invariant
            skip_name(buf@, pos as int) == skip_name(buf@, start as int),
            skip_name(buf@, pos as int) is Some,
            buf@.len() < usize::MAX - 512,
        decreases buf@.len() - pos,
    {
        let len = buf[pos];
        if len == 0 {
            return pos + 1;
        }
        if len >= 0xC0 {
            return pos + 2;
        }
        pos = pos + 1 + len as usize;
    }
}

/// Position just past a run of labels ending in a zero byte.
fn skip_label_run(buf: &[u8], start: usize) -> (r: usize)
    requires
        skip_labels(buf@, start as int) is Some,
        buf@.len() < usize::MAX - 512,
    ensures
        skip_labels(buf@, start as int) == Some(r as int),
{
    let mut pos = start;
    loop
        invariant
            skip_labels(buf@, pos as int) == skip_labels(buf@, start as int),
            skip_labels(buf@, pos as int) is Some,
            buf@.len() < usize::MAX - 512,
        decreases buf@.len() - pos,
    {
        let len = buf[pos];
        if len == 0 {
            return pos + 1;
        }
        pos = pos + 1 + len as usize;
    }
}

/// Reads the host name out of a PTR answer: `NoAnswer` if it holds no
/// answer record, else the name in the first answer's data (with its
/// compression pointers followed).
pub fn parse_response(buf: &[u8]) -> (r: Result<String, DnsError>)
    requires
        answer_readable(buf@),
        buf@.len() < usize::MAX - 512,
    ensures
        forall|depth: nat|
            #[trigger] ptr_answer(buf@, depth) is Some ==> ptr_answer(buf@, depth) == Some(
                result_text(r),
            ),
{
    let ghost depth = choose|depth: nat| #[trigger] ptr_answer(buf@, depth) is Some;
    let answer_count: u16 = (buf[6] as u16) * 256 + (buf[7] as u16);
    if answer_count == 0 {
        return Err(DnsError::NoAnswer);
    }
    let p1 = skip_question_name(buf, 12);
    let p2 = p1 + 4;
    let p3 = if buf[p2] >= 0xC0 {
        p2 + 2
    } else {
        skip_label_run(buf, p2)
    };
    let pos = p3 + 10;
    let r = read_name_within(buf, pos, Ghost(depth));
    proof {
        assert forall|d: nat| #[trigger] ptr_answer(buf@, d) is Some implies ptr_answer(buf@, d)
            == Some(result_text(r)) by {
            if d <= depth {
                lemma_name_pieces_more_depth(buf@, pos as int, d, depth);
            } else {
                lemma_name_pieces_more_depth(buf@, pos as int, depth, d);
            }
        }
    }
    r
}

/// Whether the name at `start` can be read following at most `fuel` pointers.
fn name_readable(buf: &[u8], start: usize, fuel: usize) -> (r: bool)
    requires
        buf@.len() < usize::MAX - 512,
    ensures
        r == name_pieces(buf@, start as int, fuel as nat) is Some,
    decreases fuel,
{
    let mut pos: usize = start;
    loop
        invariant
            buf@.len() < usize::MAX - 512,
            (name_pieces(buf@, start as int, fuel as nat) is Some) == (name_pieces(
                buf@,
                pos as int,
                fuel as nat,
            ) is Some),
        decreases buf@.len() - pos,
    {
        if pos >= buf.len() {
            return false;
        }
        let len = buf[pos];
        if len == 0 {
            return true;
        }
        if len >= 0xC0 {
            if pos + 1 >= buf.len() || fuel == 0 {
                return false;
            }
            let hi = len & 0x3F;
            assert(hi == len - 0xC0) by (bit_vector)
                requires
                    hi == len & 0x3F,
                    len >= 0xC0,
            ;
            let offset: usize = (hi as usize) * 256 + (buf[pos + 1] as usize);
            return name_readable(buf, offset, fuel - 1);
        }
        let l = len as usize;
        if pos + 1 + l > buf.len() {
            return false;
        }
        if utf8_text(&buf[pos + 1..pos + 1 + l]).is_none() {
            return true;
        }
        pos = pos + 1 + l;
    }
}

/// Position just past a name that may end in a compression pointer, or
/// `None` where it leaves the buffer.
fn skip_name_checked(buf: &[u8], start: usize) -> (r: Option<usize>)
    requires
        buf@.len() < usize::MAX - 512,
    ensures
        match r {
            Some(p) => skip_name(buf@, start as int) == Some(p as int) && p <= buf@.len() + 1,
            None => skip_name(buf@, start as int) is None,
        },
{
    let mut pos = start;
    loop
        invariant
            skip_name(buf@, pos as int) == skip_name(buf@, start as int),
            buf@.len() < usize::MAX - 512,
        decreases buf@.len() - pos,
    {
        if pos >= buf.len() {
            return None;
        }
        let len = buf[pos];
        if len == 0 {
            return Some(pos + 1);
        }
        if len >= 0xC0 {
            return Some(pos + 2);
        }
        if pos + 1 + len as usize >= buf.len() {
            return None;
        }
        pos = pos + 1 + len as usize;
    }
}

/// Position just past a run of labels ending in a zero byte, or `None`
/// where it leaves the buffer.
fn skip_labels_checked(buf: &[u8], start: usize) -> (r: Option<usize>)
    requires
        buf@.len() < usize::MAX - 512,
    ensures
        match r {
            Some(p) => skip_labels(buf@, start as int) == Some(p as int) && p <= buf@.len() + 1,
            None => skip_labels(buf@, start as int) is None,
        },
{
    let mut pos = start;
    loop
        invariant
            skip_labels(buf@, pos as int) == skip_labels(buf@, start as int),
            buf@.len() < usize::MAX - 512,
        decreases buf@.len() - pos,
    {
        if pos >= buf.len() {
            return None;
        }
        let len = buf[pos];
        if len == 0 {
            return Some(pos + 1);
        }
        if pos + 1 + len as usize >= buf.len() {
            return None;
        }
        pos = pos + 1 + len as usize;
    }
}

/// Reads the host name out of a PTR answer, or `None` where the answer
/// cannot be read: reading it would leave the buffer, or its compression
/// pointers never lead to an end. It follows at most as many pointers as
/// the answer has bytes, which reads every answer that can be read.
pub fn read_ptr_answer(buf: &[u8]) -> (r: Option<Result<String, DnsError>>)
    requires
        buf@.len() < usize::MAX - 512,
    ensures
        r is Some <==> ptr_answer(buf@, (buf@.len() + 1) as nat) is Some,
        r is Some <==> answer_readable(buf@),
        r matches Some(x) ==> answer_readable(buf@) && forall|depth: nat|
            #[trigger] ptr_answer(buf@, depth) is Some ==> ptr_answer(buf@, depth) == Some(
                result_text(x),
            ),
{
    let fuel = buf.len() + 1;
    if buf.len() < 8 {
        return None;
    }
    let ok = if (buf[6] as u16) * 256 + (buf[7] as u16) == 0 {
        true
    } else {
        match skip_name_checked(buf, 12) {
            None => false,
            Some(p1) => {
                let p2 = p1 + 4;
                if p2 >= buf.len() {
                    false
                } else {
                    let p3 = if buf[p2] >= 0xC0 {
                        Some(p2 + 2)
                    } else {
                        skip_labels_checked(buf, p2)
                    };
                    match p3 {
                        None => false,
                        Some(p) => name_readable(buf, p + 10, fuel),
                    }
                }
            },
        }
    };
    assert(ok == ptr_answer(buf@, fuel as nat) is Some);
    proof {
        if answer_readable(buf@) {
            law_readable_within_length(buf@);
        }
    }
    if ok {
        assert(answer_readable(buf@));
        Some(parse_response(buf))
    } else {
        None
    }
}

} // verus!
