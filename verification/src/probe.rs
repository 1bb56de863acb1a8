//! Service probing: the HTTP request, reading HTTP responses, summarising
//! TLS certificates, and the one-line probe summary.
use vstd::prelude::*;
use vstd::utf8::{decode_utf8, valid_utf8, encode_utf8, is_char_boundary};
use vstd::string::StringSliceAdditionalSpecFns;
use crate::text::{
    ascii_lower, chars_of, decimal, find_pattern, find_str, join_strings, join_with, line_ranges,
    lines_spec, lower_char, lowercase_chars, parse_unsigned, parse_unsigned_range, push_char,
    push_decimal, string_of, string_of_range, string_views, trim, trim_range, utf8_text,
    word_ranges, words,
};
use crate::date::{date_of_timestamp, date_text, ts_to_date};
use x509_parser::prelude::{FromDer, GeneralName};

verus! {

/// What a TLS handshake showed of a server.
pub struct TlsInfo {
    pub version: String,
    pub cn: Option<String>,
    pub sans: Vec<String>,
    pub issuer: Option<String>,
    pub expiry: Option<String>,
    pub expired: bool,
}

/// What an HTTP response showed of a server.
pub struct HttpInfo {
    pub status: u16,
    pub server: Option<String>,
    pub title: Option<String>,
}

/// The result of probing one open port.
pub struct ProbeResult {
    pub tls: Option<TlsInfo>,
    pub http: Option<HttpInfo>,
}

/// The text of an optional string.
pub open spec fn opt_text(o: Option<String>) -> Option<Seq<char>> {
    match o {
        Some(s) => Some(s@),
        None => None,
    }
}

// ---------------------------------------------------------------------------
// HTTP
// ---------------------------------------------------------------------------

/// The request sent to a port: `GET /` over HTTP/1.0, naming the host by
/// its address text.
pub open spec fn http_request_text(host: Seq<char>) -> Seq<char> {
    "GET / HTTP/1.0\r\nHost: "@ + host + "\r\nUser-Agent: synapse\r\nConnection: close\r\n\r\n"@
}

/// The request sent to a port, naming the host by its address text.
pub fn http_request(host: &str) -> (r: String)
    ensures
        r@ == http_request_text(host@),
{
    let mut r = string_of("GET / HTTP/1.0\r\nHost: ");
    r.append(host);
    r.append("\r\nUser-Agent: synapse\r\nConnection: close\r\n\r\n");
    r
}

pub open spec fn title_open() -> Seq<char> {
    seq!['<', 't', 'i', 't', 'l', 'e', '>']
}

pub open spec fn title_close() -> Seq<char> {
    seq!['<', '/', 't', 'i', 't', 'l', 'e', '>']
}

pub open spec fn server_prefix() -> Seq<char> {
    seq!['s', 'e', 'r', 'v', 'e', 'r', ':']
}

/// The page title: the text between the first `<title>` and the next
/// `</title>` (tags matched without regard to ASCII case), trimmed; `None`
/// if either tag is missing or the title is empty.
pub open spec fn title_of(html: Seq<char>) -> Option<Seq<char>> {
    let lower = ascii_lower(html);
    match find_str(lower, title_open()) {
        None => None,
        Some(i) => {
    let start = i + 7;
            match find_str(lower.skip(start), title_close()) {
                None => None,
                Some(j) => {
                    let t = trim(html.subrange(start, start + j));
                    if t.len() == 0 {
                        None
                    } else {
                        Some(t)
                    }
                },
            }
        },
    }
}

fn chars_vec(s: &str) -> (v: Vec<char>)
    ensures
        v@ == s@,
{
    chars_of(s)
}

fn title_of_chars(v: &Vec<char>) -> (r: Option<String>)
    ensures
        opt_text(r) == title_of(v@),
{
    let lower = lowercase_chars(v);
    let mut open: Vec<char> = Vec::new();
    open.push('<');
    open.push('t');
    open.push('i');
    open.push('t');
    open.push('l');
    open.push('e');
    open.push('>');
    assert(open@ =~= title_open());
    assert(open@.len() == 7);
    assert(lower@.skip(0) =~= lower@);
    let i = match find_pattern(&lower, 0, &open) {
        Some(i) => i,
        None => {
            return None;
        },
    };
    assert(0 + i + open@.len() <= lower@.len());
    let n = lower.len();
    assert(i + 7 <= n);
    let start = i + 7;
    let mut close: Vec<char> = Vec::new();
    close.push('<');
    close.push('/');
    close.push('t');
    close.push('i');
    close.push('t');
    close.push('l');
    close.push('e');
    close.push('>');
    assert(close@ =~= title_close());
    assert(close@.len() == 8);
    let j = match find_pattern(&lower, start, &close) {
        Some(j) => j,
        None => {
            return None;
        },
    };
    assert(start + j + close@.len() <= n);
    let (a, b) = trim_range(v, start, start + j);
    if a == b {
        return None;
    }
    Some(string_of_range(v, a, b))
}

/// The page title of an HTML text (see `title_of`).
pub fn extract_title(html: &str) -> (r: Option<String>)
    ensures
        opt_text(r) == title_of(html@),
{
    let v = chars_vec(html);
    title_of_chars(&v)
}

/// A header line naming the server (`Server:` in any ASCII case).
pub open spec fn is_server_line(l: Seq<char>) -> bool {
    l.len() >= 7 && ascii_lower(l.take(7)) == server_prefix()
}

/// The first line that names the server.
pub open spec fn first_server_line(ls: Seq<Seq<char>>) -> Option<Seq<char>>
    decreases ls.len(),
{
    if ls.len() == 0 {
        None
    } else {
        match first_server_line(ls.drop_last()) {
            Some(l) => Some(l),
            None => if is_server_line(ls.last()) {
                Some(ls.last())
            } else {
                None
            },
        }
    }
}

/// The text of a response: its bytes as UTF-8, or nothing if they are not UTF-8.
pub open spec fn response_text(data: Seq<u8>) -> Seq<char> {
    if valid_utf8(data) {
        decode_utf8(data)
    } else {
        Seq::empty()
    }
}

/// What an HTTP response shows: the status code (the second word of the
/// first line), the value of the first `Server:` header, trimmed, and the
/// page title. `None` without a first line, a second word, or a status
/// code that fits in 16 bits.
pub open spec fn http_info_of(data: Seq<u8>) -> Option<(u16, Option<Seq<char>>, Option<Seq<char>>)> {
    let text = response_text(data);
    let ls = lines_spec(text);
    if ls.len() == 0 {
        None
    } else {
        let w = words(ls[0]);
        if w.len() < 2 {
            None
        } else {
            match parse_unsigned(w[1], 65535) {
                None => None,
                Some(status) => Some(
                    (
                        status as u16,
                        match first_server_line(ls) {
                            Some(l) => Some(trim(l.skip(7))),
                            None => None,
                        },
                        title_of(text),
                    ),
                ),
            }
        }
    }
}

/// The view of what an HTTP response showed.
pub open spec fn http_view(h: HttpInfo) -> (u16, Option<Seq<char>>, Option<Seq<char>>) {
    (h.status, opt_text(h.server), opt_text(h.title))
}

/// Whether `v[a..b]` names the server.
fn server_line_at(v: &Vec<char>, a: usize, b: usize) -> (r: bool)
    requires
        a <= b <= v@.len(),
    ensures
        r == is_server_line(v@.subrange(a as int, b as int)),
{
    if b - a < 7 {
        return false;
    }
    let ghost l = v@.subrange(a as int, b as int);
    let ok = lower_char(v[a]) == 's' && lower_char(v[a + 1]) == 'e' && lower_char(v[a + 2]) == 'r'
        && lower_char(v[a + 3]) == 'v' && lower_char(v[a + 4]) == 'e' && lower_char(v[a + 5])
        == 'r' && lower_char(v[a + 6]) == ':';
    assert(ok == (ascii_lower(l.take(7)) =~= server_prefix())) by {
        assert(ascii_lower(l.take(7)).len() == 7);
        assert(forall|k: int| 0 <= k < 7 ==> ascii_lower(l.take(7))[k] == crate::text::ascii_lower_char(
            v@[a + k],
        ));
    }
    ok
}

/// Reads an HTTP response (see `http_info_of`).
pub fn parse_http(data: &[u8]) -> (r: Option<HttpInfo>)
    ensures
        match http_info_of(data@) {
            Some(x) => r matches Some(h) && http_view(h) == x,
            None => r is None,
        },
{
    let text = match utf8_text(data) {
        Some(t) => t,
        None => "",
    };
    let v = chars_vec(text);
    proof {
        reveal_strlit("");
    }
    assert(v@ =~= response_text(data@));
    let lines = line_ranges(&v);
    if lines.len() == 0 {
        return None;
    }
    let (a, b) = lines[0];
    let ws = word_ranges(&v, a, b);
    if ws.len() < 2 {
        return None;
    }
    let (c, d) = ws[1];
    let status = match parse_unsigned_range(&v, c, d, 65535) {
        Some(n) => n as u16,
        None => {
            return None;
        },
    };
    let server = find_server(&v, &lines);
    let title = title_of_chars(&v);
    Some(HttpInfo { status, server, title })
}

/// The trimmed value of the first line that names the server.
fn find_server(v: &Vec<char>, lines: &Vec<(usize, usize)>) -> (r: Option<String>)
    requires
        lines@.len() == lines_spec(v@).len(),
        forall|j: int|
            0 <= j < lines@.len() ==> {
                &&& (#[trigger] lines@[j]).0 <= lines@[j].1 <= v@.len()
                &&& v@.subrange(lines@[j].0 as int, lines@[j].1 as int) == lines_spec(v@)[j]
            },
    ensures
        opt_text(r) == match first_server_line(lines_spec(v@)) {
            Some(l) => Some(trim(l.skip(7))),
            None => None,
        },
{
    let ghost ls = lines_spec(v@);
    let mut k: usize = 0;
    while k < lines.len()
        invariant
            lines@.len() == ls.len(),
            ls == lines_spec(v@),
            forall|j: int|
                0 <= j < lines@.len() ==> {
                    &&& (#[trigger] lines@[j]).0 <= lines@[j].1 <= v@.len()
                    &&& v@.subrange(lines@[j].0 as int, lines@[j].1 as int) == ls[j]
                },
            k <= lines@.len(),
            first_server_line(ls.take(k as int)) is None,
        decreases lines@.len() - k,
    {
        let (a, b) = lines[k];
        assert(ls.take(k + 1).drop_last() =~= ls.take(k as int));
        if server_line_at(v, a, b) {
            let (s, e) = trim_range(v, a + 7, b);
            assert(v@.subrange(a + 7, b as int) =~= ls[k as int].skip(7));
            proof {
                lemma_first_server_prefix(ls, k + 1);
            }
            return Some(string_of_range(v, s, e));
        }
        k = k + 1;
    }
    assert(ls.take(k as int) =~= ls);
    None
}

proof fn lemma_first_server_prefix(ls: Seq<Seq<char>>, k: int)
    requires
        0 <= k <= ls.len(),
        first_server_line(ls.take(k)) is Some,
    ensures
        first_server_line(ls) == first_server_line(ls.take(k)),
    decreases ls.len() - k,
{
    if k < ls.len() {
        assert(ls.take(k + 1).drop_last() =~= ls.take(k));
        lemma_first_server_prefix(ls, k + 1);
    } else {
        assert(ls.take(k) =~= ls);
    }
}

// ---------------------------------------------------------------------------
// TLS
// ---------------------------------------------------------------------------

/// The TLS version a handshake settled on.
#[derive(PartialEq, Eq, Structural, Clone, Copy, Debug)]
pub enum TlsVersion {
    Tls13,
    Tls12,
    Other,
}

/// The label of a TLS version.
pub open spec fn tls_version_text(v: TlsVersion) -> Seq<char> {
    match v {
        TlsVersion::Tls13 => "TLS 1.3"@,
        TlsVersion::Tls12 => "TLS 1.2"@,
        TlsVersion::Other => "TLS"@,
    }
}

/// The label of a TLS version.
pub fn tls_version_label(v: TlsVersion) -> (r: String)
    ensures
        r@ == tls_version_text(v),
{
    match v {
        TlsVersion::Tls13 => string_of("TLS 1.3"),
        TlsVersion::Tls12 => string_of("TLS 1.2"),
        TlsVersion::Other => string_of("TLS"),
    }
}

/// A subject alternative name of a certificate.
pub enum AltName {
    Dns(String),
    Ip(Vec<u8>),
    Other,
}

/// The view of a subject alternative name.
pub enum AltNameView {
    Dns(Seq<char>),
    Ip(Seq<u8>),
    Other,
}

pub open spec fn alt_name_view(a: AltName) -> AltNameView {
    match a {
        AltName::Dns(s) => AltNameView::Dns(s@),
        AltName::Ip(b) => AltNameView::Ip(b@),
        AltName::Other => AltNameView::Other,
    }
}

/// The certificate is DER that `X509Certificate::from_der` accepts.
pub uninterp spec fn x509_parse_ok(der: Seq<u8>) -> bool;

/// The first common name of the certificate's subject, when it is a string.
pub uninterp spec fn x509_subject_cn(der: Seq<u8>) -> Option<Seq<char>>;

/// The first common name of the certificate's issuer, when it is a string.
pub uninterp spec fn x509_issuer_cn(der: Seq<u8>) -> Option<Seq<char>>;

/// The names of the certificate's subject-alternative-name extension, in
/// order; empty without the extension or when it does not parse.
pub uninterp spec fn x509_alt_names(der: Seq<u8>) -> Seq<AltNameView>;

/// The end of the certificate's validity, in seconds since 1970-01-01 UTC.
pub uninterp spec fn x509_not_after(der: Seq<u8>) -> i64;

/// Whether `X509Certificate::from_der` accepts `der`.
#[verifier::external_body]
fn certificate_parses(der: &[u8]) -> (r: bool)
    ensures
        r == x509_parse_ok(der@),
{
    x509_parser::certificate::X509Certificate::from_der(der).is_ok()
}

/// The first subject common name of the certificate (`subject().iter_common_name()`,
/// first, as a string).
#[verifier::external_body]
fn certificate_subject_cn(der: &[u8]) -> (r: Option<String>)
    requires
        x509_parse_ok(der@),
    ensures
        opt_text(r) == x509_subject_cn(der@),
{
    let (_, cert) = x509_parser::certificate::X509Certificate::from_der(der).unwrap();
    let name = cert.subject().iter_common_name().next().and_then(|a| a.as_str().ok()).map(String::from);
    name
}

/// The first issuer common name of the certificate (`issuer().iter_common_name()`,
/// first, as a string).
#[verifier::external_body]
fn certificate_issuer_cn(der: &[u8]) -> (r: Option<String>)
    requires
        x509_parse_ok(der@),
    ensures
        opt_text(r) == x509_issuer_cn(der@),
{
    let (_, cert) = x509_parser::certificate::X509Certificate::from_der(der).unwrap();
    let name = cert.issuer().iter_common_name().next().and_then(|a| a.as_str().ok()).map(String::from);
    name
}

/// The general names of the certificate's subject-alternative-name
/// extension (`subject_alternative_name()`), DNS names and IP addresses
/// carried over, every other kind marked `Other`.
#[verifier::external_body]
fn certificate_alt_names(der: &[u8]) -> (r: Vec<AltName>)
    requires
        x509_parse_ok(der@),
    ensures
        r@.map_values(|a: AltName| alt_name_view(a)) == x509_alt_names(der@),
{
    let (_, cert) = x509_parser::certificate::X509Certificate::from_der(der).unwrap();
    match cert.subject_alternative_name().ok().flatten() {
        Some(ext) => ext.value.general_names.iter().map(|gn| match gn {
            GeneralName::DNSName(n) => AltName::Dns(n.to_string()),
            GeneralName::IPAddress(b) => AltName::Ip(b.to_vec()),
            _ => AltName::Other,
        }).collect(),
        None => Vec::new(),
    }
}

/// The end of the certificate's validity (`validity().not_after.timestamp()`).
#[verifier::external_body]
fn certificate_not_after(der: &[u8]) -> (r: i64)
    requires
        x509_parse_ok(der@),
    ensures
        r == x509_not_after(der@),
{
    let (_, cert) = x509_parser::certificate::X509Certificate::from_der(der).unwrap();
    cert.validity().not_after.timestamp()
}

/// The dotted text of a four-byte address.
pub open spec fn dotted_quad(b: Seq<u8>) -> Seq<char> {
    decimal(b[0] as nat) + seq!['.'] + decimal(b[1] as nat) + seq!['.'] + decimal(b[2] as nat)
        + seq!['.'] + decimal(b[3] as nat)
}

/// The alternative names shown: DNS names as they are, four-byte IP
/// addresses as dotted text, every other name left out.
pub open spec fn shown_alt_names(names: Seq<AltNameView>) -> Seq<Seq<char>>
    decreases names.len(),
{
    if names.len() == 0 {
        Seq::empty()
    } else {
        let done = shown_alt_names(names.drop_last());
        match names.last() {
            AltNameView::Dns(n) => done.push(n),
            AltNameView::Ip(b) => if b.len() == 4 {
                done.push(dotted_quad(b))
            } else {
                done
            },
            AltNameView::Other => done,
        }
    }
}

fn dotted_text(b: &Vec<u8>) -> (r: String)
    requires
        b@.len() == 4,
    ensures
        r@ == dotted_quad(b@),
{
    let mut s = String::new();
    push_decimal(&mut s, b[0] as u64);
    push_char(&mut s, '.');
    push_decimal(&mut s, b[1] as u64);
    push_char(&mut s, '.');
    push_decimal(&mut s, b[2] as u64);
    push_char(&mut s, '.');
    push_decimal(&mut s, b[3] as u64);
    s
}

/// The alternative names shown in a summary.
pub fn alt_names_shown(names: &Vec<AltName>) -> (r: Vec<String>)
    ensures
        string_views(r@) == shown_alt_names(names@.map_values(|a: AltName| alt_name_view(a))),
{
    let ghost views = names@.map_values(|a: AltName| alt_name_view(a));
    let mut r: Vec<String> = Vec::new();
    let mut k: usize = 0;
    while k < names.len()
        invariant
            k <= names@.len(),
            views == names@.map_values(|a: AltName| alt_name_view(a)),
            string_views(r@) == shown_alt_names(views.take(k as int)),
        decreases names@.len() - k,
    {
        assert(views.take(k + 1).drop_last() =~= views.take(k as int));
        assert(views.take(k + 1).last() == alt_name_view(names@[k as int]));
        let ghost before = r@;
        match &names[k] {
            AltName::Dns(n) => {
                r.push(n.clone());
                assert(string_views(r@) =~= string_views(before).push(n@));
            },
            AltName::Ip(b) => {
                if b.len() == 4 {
                    r.push(dotted_text(b));
                    assert(string_views(r@) =~= string_views(before).push(dotted_quad(b@)));
                }
            },
            AltName::Other => {},
        }
        k = k + 1;
    }
    assert(views.take(k as int) =~= views);
    r
}

/// The summary of a certificate read at time `now`: `None` if it does not
/// parse; else its subject common name, its shown alternative names, its
/// issuer common name, its expiry date, whether it expired before `now`,
/// and an empty version (the handshake fills it in).
pub open spec fn cert_summary_matches(der: Seq<u8>, now: i64, r: Option<TlsInfo>) -> bool {
    if !x509_parse_ok(der) {
        r is None
    } else {
        r matches Some(t) && {
            &&& t.version@ == Seq::<char>::empty()
            &&& opt_text(t.cn) == x509_subject_cn(der)
            &&& string_views(t.sans@) == shown_alt_names(x509_alt_names(der))
            &&& opt_text(t.issuer) == x509_issuer_cn(der)
            &&& t.expiry matches Some(e) && exists|y: int, m: int, d: int|
                date_of_timestamp(x509_not_after(der) as int, y, m, d) && e@ == date_text(y, m, d)
            &&& t.expired == (x509_not_after(der) < now)
        }
    }
}

/// Summarises a DER certificate as of time `now` (seconds since 1970).
pub fn summarize_cert(der: &[u8], now: i64) -> (r: Option<TlsInfo>)
    ensures
        cert_summary_matches(der@, now, r),
{
    if !certificate_parses(der) {
        return None;
    }
    let cn = certificate_subject_cn(der);
    let names = certificate_alt_names(der);
    let sans = alt_names_shown(&names);
    let issuer = certificate_issuer_cn(der);
    let not_after = certificate_not_after(der);
    let expiry = ts_to_date(not_after);
    Some(TlsInfo { version: String::new(), cn, sans, issuer, expiry: Some(expiry), expired: not_after < now })
}

/// Summarises a DER certificate as of the current time, a whole number of
/// seconds since 1970 read from the clock.
pub fn parse_cert(der: &[u8]) -> (r: Option<TlsInfo>)
    ensures
        exists|now: i64| cert_summary_matches(der@, now, r),
        exists|secs: u64| #[trigger] cert_summary_matches(der@, secs as i64, r),
{
    let now = crate::diff::now_timestamp() as i64;
    summarize_cert(der, now)
}

/// What a TLS handshake showed: the certificate's summary (or, without a
/// certificate that parses, an empty one) under the negotiated version.
pub open spec fn tls_result_matches(version: TlsVersion, der: Option<Seq<u8>>, r: TlsInfo) -> bool {
    &&& r.version@ == tls_version_text(version)
    &&& match der {
        Some(d) if x509_parse_ok(d) => exists|now: i64, t: TlsInfo|
            cert_summary_matches(d, now, Some(t)) && r.cn == t.cn && r.sans == t.sans && r.issuer
                == t.issuer && r.expiry == t.expiry && r.expired == t.expired,
        _ => r.cn is None && r.sans@.len() == 0 && r.issuer is None && r.expiry is None && !r.expired,
    }
}

/// The TLS part of a probe: the captured certificate summarised as of now,
/// or an empty summary, labelled with the negotiated version.
pub fn tls_result(version: TlsVersion, der: Option<&[u8]>) -> (r: TlsInfo)
    ensures
        tls_result_matches(
            version,
            match der {
                Some(d) => Some(d@),
                None => None,
            },
            r,
        ),
{
    let parsed = match der {
        Some(d) => parse_cert(d),
        None => None,
    };
    let label = tls_version_label(version);
    match parsed {
        Some(t) => TlsInfo { version: label, cn: t.cn, sans: t.sans, issuer: t.issuer, expiry: t.expiry, expired: t.expired },
        None => TlsInfo { version: label, cn: None, sans: Vec::new(), issuer: None, expiry: None, expired: false },
    }
}

// ---------------------------------------------------------------------------
// The probe summary
// ---------------------------------------------------------------------------

/// A title cut to its first 40 bytes.
pub open spec fn clip_title(t: Seq<char>) -> Seq<char> {
    if encode_utf8(t).len() > 40 {
        decode_utf8(encode_utf8(t).take(40))
    } else {
        t
    }
}

/// A title can be cut at 40 bytes without splitting a character.
pub open spec fn title_cuttable(t: Seq<char>) -> bool {
    encode_utf8(t).len() > 40 ==> is_char_boundary(encode_utf8(t), 40)
}

/// The summary parts of a TLS result.
pub open spec fn tls_parts(t: TlsInfo) -> Seq<Seq<char>> {
    seq![t.version@] + (match t.cn {
        Some(cn) => seq!["CN:"@ + cn@],
        None => if t.sans@.len() > 0 {
            seq!["SAN:"@ + t.sans@[0]@]
        } else {
            Seq::empty()
        },
    }) + (match t.issuer {
        Some(i) => seq!["issuer:"@ + i@],
        None => Seq::empty(),
    }) + (match t.expiry {
        Some(e) => if t.expired {
            seq!["exp:"@ + e@ + " [!]"@]
        } else {
            seq!["exp:"@ + e@]
        },
        None => Seq::empty(),
    })
}

/// The summary parts of an HTTP result.
pub open spec fn http_parts(h: HttpInfo) -> Seq<Seq<char>> {
    seq!["HTTP "@ + decimal(h.status as nat)] + (match h.server {
        Some(s) => seq![s@],
        None => Seq::empty(),
    }) + (match h.title {
        Some(t) => seq![seq!['"'] + clip_title(t@) + seq!['"']],
        None => Seq::empty(),
    })
}

/// The one-line summary of a probe: its parts joined by ` | `.
pub open spec fn probe_summary(p: ProbeResult) -> Seq<char> {
    join_with(
        (match p.tls {
            Some(t) => tls_parts(t),
            None => Seq::empty(),
        }) + (match p.http {
            Some(h) => http_parts(h),
            None => Seq::empty(),
        }),
        " | "@,
    )
}

/// A string made of `prefix` and `text`.
fn labelled(prefix: &str, text: &str) -> (r: String)
    ensures
        r@ == prefix@ + text@,
{
    let mut r = string_of(prefix);
    r.append(text);
    r
}

/// The title cut to its first 40 bytes, in quotes.
fn quoted_title(t: &String) -> (r: String)
    requires
        title_cuttable(t@),
    ensures
        r@ == seq!['"'] + clip_title(t@) + seq!['"'],
{
    let s = t.as_str();
    let mut r = String::new();
    push_char(&mut r, '"');
    let ghost q = r@;
    if s.as_bytes().len() > 40 {
        let (head, _) = s.split_at(40);
        proof {
            vstd::utf8::encode_utf8_decode_utf8(head@);
            assert(head.spec_bytes() == encode_utf8(head@));
            assert(s.spec_bytes() == encode_utf8(t@));
            assert(encode_utf8(t@).take(40) =~= s.spec_bytes().subrange(0, 40));
            assert(head@ == clip_title(t@));
        }
        r.append(head);
        assert(r@ == q + clip_title(t@));
    } else {
        assert(s.spec_bytes() == encode_utf8(t@));
        assert(clip_title(t@) == t@);
        r.append(s);
        assert(r@ == q + clip_title(t@));
    }
    assert(r@ == q + clip_title(t@));
    push_char(&mut r, '"');
    assert(r@ =~= seq!['"'] + clip_title(t@) + seq!['"']);
    r
}

/// The one-line summary of a probe (see `probe_summary`).
pub fn format_probe(p: &ProbeResult) -> (r: String)
    requires
        p.http matches Some(h) ==> h.title matches Some(t) ==> title_cuttable(t@),
    ensures
        r@ == probe_summary(*p),
{
    let mut parts: Vec<String> = Vec::new();
    let ghost mut expect: Seq<Seq<char>> = Seq::empty();
    if let Some(tls) = &p.tls {
        parts.push(tls.version.clone());
        if let Some(cn) = &tls.cn {
            parts.push(labelled("CN:", cn.as_str()));
        } else if tls.sans.len() > 0 {
            parts.push(labelled("SAN:", tls.sans[0].as_str()));
        }
        if let Some(iss) = &tls.issuer {
            parts.push(labelled("issuer:", iss.as_str()));
        }
        if let Some(exp) = &tls.expiry {
            let mut e = labelled("exp:", exp.as_str());
            if tls.expired {
                e.append(" [!]");
            }
            parts.push(e);
        }
        proof {
            expect = tls_parts(*tls);
        }
        assert(string_views(parts@) =~= expect);
    }
    let ghost after_tls = expect;
    if let Some(http) = &p.http {
        let ghost before = parts@;
        let mut code = string_of("HTTP ");
        push_decimal(&mut code, http.status as u64);
        parts.push(code);
        if let Some(s) = &http.server {
            parts.push(s.clone());
        }
        if let Some(t) = &http.title {
            parts.push(quoted_title(t));
        }
        proof {
            expect = after_tls + http_parts(*http);
        }
        assert(string_views(parts@) =~= string_views(before) + http_parts(*http));
    }
    assert(string_views(parts@) =~= expect);
    join_strings(&parts, " | ")
}

} // verus!
