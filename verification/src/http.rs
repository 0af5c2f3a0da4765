//! HTTP/1.1 message framing: a parser from raw request text to a structured
//! request, and a serializer from a structured response to wire text, together
//! with a builder that fills in the documented response defaults.
use vstd::prelude::*;
use vstd::string::StrSliceExecFns;
use vstd::string::StringExecFns;

use crate::strutil::all_digits;
use crate::strutil::bytes_len;
use crate::strutil::char_bytes;
use crate::strutil::char_utf8_len;
use crate::strutil::append_dec;
use crate::strutil::dec_str;
use crate::strutil::dec_val;
use crate::strutil::extract;
use crate::strutil::find_from;
use crate::strutil::find_sub;
use crate::strutil::lemma_find_from_first;
use crate::strutil::lemma_find_from_none;
use crate::strutil::chars_of;
use crate::strutil::parse_dec;
use crate::strutil::split_on;
use crate::strutil::split_string;
use crate::strutil::str_eq;
use crate::error::HttpError;

verus! {

/// The line terminator of the wire format.
pub open spec fn crlf() -> Seq<char> {
    seq!['\r', '\n']
}

/// A single space, the token separator of the request line.
pub open spec fn spc() -> Seq<char> {
    seq![' ']
}

/// The separator between a header name and its value.
pub open spec fn header_sep() -> Seq<char> {
    seq![':', ' ']
}

/// The name of the header that announces a request body.
pub open spec fn content_length_key() -> Seq<char> {
    seq!['C', 'o', 'n', 't', 'e', 'n', 't', '-', 'L', 'e', 'n', 'g', 't', 'h']
}


/// An ASCII letter raised to upper case; any other character unchanged.
pub open spec fn upper_char(c: char) -> char {
    if c == 'a' { 'A' } else
    if c == 'b' { 'B' } else
    if c == 'c' { 'C' } else
    if c == 'd' { 'D' } else
    if c == 'e' { 'E' } else
    if c == 'f' { 'F' } else
    if c == 'g' { 'G' } else
    if c == 'h' { 'H' } else
    if c == 'i' { 'I' } else
    if c == 'j' { 'J' } else
    if c == 'k' { 'K' } else
    if c == 'l' { 'L' } else
    if c == 'm' { 'M' } else
    if c == 'n' { 'N' } else
    if c == 'o' { 'O' } else
    if c == 'p' { 'P' } else
    if c == 'q' { 'Q' } else
    if c == 'r' { 'R' } else
    if c == 's' { 'S' } else
    if c == 't' { 'T' } else
    if c == 'u' { 'U' } else
    if c == 'v' { 'V' } else
    if c == 'w' { 'W' } else
    if c == 'x' { 'X' } else
    if c == 'y' { 'Y' } else
    if c == 'z' { 'Z' } else { c }
}

/// An ASCII letter lowered to lower case; any other character unchanged.
pub open spec fn lower_char(c: char) -> char {
    if c == 'A' { 'a' } else
    if c == 'B' { 'b' } else
    if c == 'C' { 'c' } else
    if c == 'D' { 'd' } else
    if c == 'E' { 'e' } else
    if c == 'F' { 'f' } else
    if c == 'G' { 'g' } else
    if c == 'H' { 'h' } else
    if c == 'I' { 'i' } else
    if c == 'J' { 'j' } else
    if c == 'K' { 'k' } else
    if c == 'L' { 'l' } else
    if c == 'M' { 'm' } else
    if c == 'N' { 'n' } else
    if c == 'O' { 'o' } else
    if c == 'P' { 'p' } else
    if c == 'Q' { 'q' } else
    if c == 'R' { 'r' } else
    if c == 'S' { 's' } else
    if c == 'T' { 't' } else
    if c == 'U' { 'u' } else
    if c == 'V' { 'v' } else
    if c == 'W' { 'w' } else
    if c == 'X' { 'x' } else
    if c == 'Y' { 'y' } else
    if c == 'Z' { 'z' } else { c }
}

/// A header name in canonical HTTP case: the first character and each
/// character after a hyphen upper-cased, every other character lower-cased.
/// Header names are case-insensitive on the wire; the parser normalizes them
/// to this case, so lookups need not mind the sender's casing.
pub open spec fn canonical_key(s: Seq<char>) -> Seq<char> {
    Seq::new(
        s.len(),
        |i: int|
            if i == 0 || s[i - 1] == '-' {
                upper_char(s[i])
            } else {
                lower_char(s[i])
            },
    )
}

/// An ASCII letter raised to upper case.
fn to_upper(c: char) -> (r: char)
    ensures
        r == upper_char(c),
{
    match c {
        'a' => 'A',
        'b' => 'B',
        'c' => 'C',
        'd' => 'D',
        'e' => 'E',
        'f' => 'F',
        'g' => 'G',
        'h' => 'H',
        'i' => 'I',
        'j' => 'J',
        'k' => 'K',
        'l' => 'L',
        'm' => 'M',
        'n' => 'N',
        'o' => 'O',
        'p' => 'P',
        'q' => 'Q',
        'r' => 'R',
        's' => 'S',
        't' => 'T',
        'u' => 'U',
        'v' => 'V',
        'w' => 'W',
        'x' => 'X',
        'y' => 'Y',
        'z' => 'Z',
        _ => c,
    }
}

/// An ASCII letter lowered to lower case.
fn to_lower(c: char) -> (r: char)
    ensures
        r == lower_char(c),
{
    match c {
        'A' => 'a',
        'B' => 'b',
        'C' => 'c',
        'D' => 'd',
        'E' => 'e',
        'F' => 'f',
        'G' => 'g',
        'H' => 'h',
        'I' => 'i',
        'J' => 'j',
        'K' => 'k',
        'L' => 'l',
        'M' => 'm',
        'N' => 'n',
        'O' => 'o',
        'P' => 'p',
        'Q' => 'q',
        'R' => 'r',
        'S' => 's',
        'T' => 't',
        'U' => 'u',
        'V' => 'v',
        'W' => 'w',
        'X' => 'x',
        'Y' => 'y',
        'Z' => 'z',
        _ => c,
    }
}

/// Relies on `String::push`: appends exactly the one character.
#[verifier::external_body]
fn push_char(s: &mut String, c: char)
    ensures
        final(s)@ == old(s)@.push(c),
{
    s.push(c);
}

/// A header name brought to canonical HTTP case.
pub fn canonicalize_key(s: &str) -> (r: String)
    ensures
        r@ == canonical_key(s@),
{
    let n = s.unicode_len();
    let mut out = String::new();
    let mut i: usize = 0;
    proof {
        assert(out@ =~= canonical_key(s@).take(0));
    }
    while i < n
        invariant
            n == s@.len(),
            i <= n,
            out@ == canonical_key(s@).take(i as int),
        decreases n - i,
    {
        let c = s.get_char(i);
        let at_part_start = if i == 0 {
            true
        } else {
            s.get_char(i - 1) == '-'
        };
        let folded = if at_part_start {
            to_upper(c)
        } else {
            to_lower(c)
        };
        push_char(&mut out, folded);
        proof {
            assert(out@ =~= canonical_key(s@).take(i + 1));
        }
        i = i + 1;
    }
    proof {
        assert(canonical_key(s@).take(n as int) =~= canonical_key(s@));
    }
    out
}

/// An association list of header or query names and values, in insertion
/// order. Writing a name twice overwrites its value in place.
pub open spec fn upsert(
    m: Seq<(Seq<char>, Seq<char>)>,
    k: Seq<char>,
    v: Seq<char>,
) -> Seq<(Seq<char>, Seq<char>)>
    decreases m.len(),
{
    if m.len() == 0 {
        seq![(k, v)]
    } else if m[0].0 == k {
        seq![(k, v)] + m.drop_first()
    } else {
        seq![m[0]] + upsert(m.drop_first(), k, v)
    }
}

/// The value stored under the first entry named `k`, if any.
pub open spec fn lookup(m: Seq<(Seq<char>, Seq<char>)>, k: Seq<char>) -> Option<Seq<char>>
    decreases m.len(),
{
    if m.len() == 0 {
        None
    } else if m[0].0 == k {
        Some(m[0].1)
    } else {
        lookup(m.drop_first(), k)
    }
}

/// When `k` first appears at position `j`, `upsert` overwrites in place.
proof fn lemma_upsert_found(m: Seq<(Seq<char>, Seq<char>)>, k: Seq<char>, v: Seq<char>, j: int)
    requires
        0 <= j < m.len(),
        m[j].0 == k,
        forall|i: int| 0 <= i < j ==> m[i].0 != k,
    ensures
        upsert(m, k, v) == m.update(j, (k, v)),
    decreases m.len(),
{
    if j == 0 {
        assert(upsert(m, k, v) =~= m.update(0, (k, v)));
    } else {
        lemma_upsert_found(m.drop_first(), k, v, j - 1);
        assert(upsert(m, k, v) =~= m.update(j, (k, v)));
    }
}

/// When `k` does not appear, `upsert` appends.
pub proof fn lemma_upsert_absent(m: Seq<(Seq<char>, Seq<char>)>, k: Seq<char>, v: Seq<char>)
    requires
        forall|i: int| 0 <= i < m.len() ==> m[i].0 != k,
    ensures
        upsert(m, k, v) == m.push((k, v)),
    decreases m.len(),
{
    if m.len() == 0 {
        assert(upsert(m, k, v) =~= m.push((k, v)));
    } else {
        lemma_upsert_absent(m.drop_first(), k, v);
        assert(upsert(m, k, v) =~= m.push((k, v)));
    }
}

/// Insert `(key, value)` into the association list `m`, overwriting the
/// value in place if `key` is already present.
fn upsert_exec(m: &mut Vec<(String, String)>, key: String, value: String)
    ensures
        final(m).deep_view() == upsert(old(m).deep_view(), key@, value@),
{
    let n = m.len();
    let mut i: usize = 0;
    while i < n
        invariant
            n == m@.len(),
            i <= n,
            m@ == old(m)@,
            forall|j: int| 0 <= j < i ==> m.deep_view()[j].0 != key@,
        decreases n - i,
    {
        if str_eq(m[i].0.as_str(), key.as_str()) {
            let ghost before = m.deep_view();
            let ghost kv = key@;
            let ghost vv = value@;
            m[i] = (key, value);
            proof {
                lemma_upsert_found(before, kv, vv, i as int);
                assert(m.deep_view() =~= before.update(i as int, (kv, vv)));
            }
            return ;
        }
        i = i + 1;
    }
    let ghost before = m.deep_view();
    let ghost kv = key@;
    let ghost vv = value@;
    proof {
        lemma_upsert_absent(before, kv, vv);
    }
    m.push((key, value));
    proof {
        assert(m.deep_view() =~= before.push((kv, vv)));
    }
}

/// Look the name `key` up in the association list `m`.
pub(crate) fn lookup_exec<'a>(m: &'a Vec<(String, String)>, key: &str) -> (r: Option<&'a String>)
    ensures
        match r {
            Some(v) => lookup(m.deep_view(), key@) == Some(v@),
            None => lookup(m.deep_view(), key@) is None,
        },
{
    let n = m.len();
    let mut i: usize = 0;
    proof {
        assert(m.deep_view().skip(0) =~= m.deep_view());
    }
    while i < n
        invariant
            n == m@.len(),
            i <= n,
            lookup(m.deep_view(), key@) == lookup(m.deep_view().skip(i as int), key@),
        decreases n - i,
    {
        let ghost rest = m.deep_view().skip(i as int);
        proof {
            assert(rest[0] == m.deep_view()[i as int]);
            assert(rest.drop_first() =~= m.deep_view().skip(i + 1));
        }
        if str_eq(m[i].0.as_str(), key) {
            return Some(&m[i].1);
        }
        i = i + 1;
    }
    proof {
        assert(m.deep_view().skip(n as int) =~= Seq::<(Seq<char>, Seq<char>)>::empty());
    }
    None
}

/// The ghost shape of a response: what serialization depends on.
pub struct RespModel {
    pub http_version: Seq<char>,
    pub status_code: u32,
    pub status_message: Seq<char>,
    pub headers: Seq<(Seq<char>, Seq<char>)>,
    pub body: Option<Seq<char>>,
}

/// An HTTP response: status line, headers in insertion order, optional body.
/// The type does not compute `Content-Length`; a caller that sets a body is
/// responsible for setting a matching header.
#[derive(Debug)]
pub struct HttpResponse {
    pub http_version: String,
    pub status_code: u32,
    pub status_message: String,
    headers: Vec<(String, String)>,
    body: Option<String>,
}

impl View for HttpResponse {
    type V = RespModel;

    closed spec fn view(&self) -> RespModel {
        RespModel {
            http_version: self.http_version@,
            status_code: self.status_code,
            status_message: self.status_message@,
            headers: self.headers.deep_view(),
            body: self.body.deep_view(),
        }
    }
}

/// The wire text of one header line.
pub open spec fn header_line_wire(h: (Seq<char>, Seq<char>)) -> Seq<char> {
    h.0 + header_sep() + h.1 + crlf()
}

/// The wire text of the header lines from position `i` on.
pub open spec fn headers_wire_from(hs: Seq<(Seq<char>, Seq<char>)>, i: int) -> Seq<char>
    decreases hs.len() - i,
{
    if i < 0 || i >= hs.len() {
        Seq::empty()
    } else {
        header_line_wire(hs[i]) + headers_wire_from(hs, i + 1)
    }
}

/// The full wire text of a response: status line, header lines in insertion
/// order, a blank line, then the body if one is present.
pub open spec fn response_wire(r: RespModel) -> Seq<char> {
    r.http_version + spc() + dec_str(r.status_code as nat) + spc() + r.status_message + crlf()
        + headers_wire_from(r.headers, 0) + crlf() + (match r.body {
        Some(b) => b,
        None => Seq::<char>::empty(),
    })
}

impl HttpResponse {
    /// A response with the given status line and no headers or body.
    pub fn new(http_version: String, status_code: u32, status_message: String) -> (r: Self)
        ensures
            r@.http_version == http_version@,
            r@.status_code == status_code,
            r@.status_message == status_message@,
            r@.headers == Seq::<(Seq<char>, Seq<char>)>::empty(),
            r@.body is None,
    {
        let r = Self { http_version, status_code, status_message, headers: Vec::new(), body: None };
        proof {
            assert(r.headers.deep_view() =~= Seq::<(Seq<char>, Seq<char>)>::empty());
        }
        r
    }

    /// An empty builder.
    pub fn builder() -> (b: HttpResponseBuilder)
        ensures
            b@.http_version is None,
            b@.status_code is None,
            b@.status_message is None,
            b@.headers == Seq::<(Seq<char>, Seq<char>)>::empty(),
            b@.body is None,
    {
        let b = HttpResponseBuilder {
            http_version: None,
            status_code: None,
            status_message: None,
            headers: Vec::new(),
            body: None,
        };
        proof {
            assert(b.headers.deep_view() =~= Seq::<(Seq<char>, Seq<char>)>::empty());
        }
        b
    }

    /// The wire text of this response.
    pub fn to_http_string(&self) -> (r: String)
        ensures
            r@ == response_wire(self@),
    {
        proof {
            reveal_strlit(" ");
            reveal_strlit("\r\n");
            reveal_strlit(": ");
        }
        let mut out = String::new();
        out.append(self.http_version.as_str());
        out.append(" ");
        append_dec(&mut out, self.status_code as u64);
        out.append(" ");
        out.append(self.status_message.as_str());
        out.append("\r\n");
        let ghost pre = self@.http_version + spc() + dec_str(self@.status_code as nat) + spc()
            + self@.status_message + crlf();
        proof {
            assert(out@ =~= pre);
        }
        let ghost hs = self@.headers;
        let n = self.headers.len();
        let mut i: usize = 0;
        while i < n
            invariant
                n == self.headers@.len(),
                i <= n,
                hs == self@.headers,
                out@ + headers_wire_from(hs, i as int) == pre + headers_wire_from(hs, 0),
            decreases n - i,
        {
            let ghost outbefore = out@;
            let h = &self.headers[i];
            proof {
                reveal_strlit(": ");
                reveal_strlit("\r\n");
                assert(hs[i as int] == (h.0@, h.1@));
            }
            out.append(h.0.as_str());
            out.append(": ");
            out.append(h.1.as_str());
            out.append("\r\n");
            proof {
                assert(out@ =~= outbefore + header_line_wire(hs[i as int]));
                assert(out@ + headers_wire_from(hs, i + 1) =~= outbefore + headers_wire_from(
                    hs,
                    i as int,
                ));
            }
            i = i + 1;
        }
        proof {
            reveal_strlit("\r\n");
        }
        out.append("\r\n");
        match &self.body {
            Some(b) => {
                out.append(b.as_str());
            },
            None => {},
        }
        proof {
            assert(out@ =~= response_wire(self@));
        }
        out
    }
}

/// The ghost shape of a response builder.
pub struct BuilderModel {
    pub http_version: Option<Seq<char>>,
    pub status_code: Option<u32>,
    pub status_message: Option<Seq<char>>,
    pub headers: Seq<(Seq<char>, Seq<char>)>,
    pub body: Option<Seq<char>>,
}

/// Accumulates response fields; `build` fills unset fields with the
/// documented defaults (version "HTTP/1.1", status 404 "Not Found").
pub struct HttpResponseBuilder {
    http_version: Option<String>,
    status_code: Option<u32>,
    status_message: Option<String>,
    headers: Vec<(String, String)>,
    body: Option<String>,
}

impl View for HttpResponseBuilder {
    type V = BuilderModel;

    closed spec fn view(&self) -> BuilderModel {
        BuilderModel {
            http_version: self.http_version.deep_view(),
            status_code: self.status_code,
            status_message: self.status_message.deep_view(),
            headers: self.headers.deep_view(),
            body: self.body.deep_view(),
        }
    }
}

impl HttpResponseBuilder {
    /// Set the version of the status line.
    pub fn http_version(self, http_version: &str) -> (r: Self)
        ensures
            r@ == (BuilderModel { http_version: Some(http_version@), ..self@ }),
    {
        Self { http_version: Some(http_version.to_owned()), ..self }
    }

    /// Set the status code.
    pub fn status_code(self, status_code: u32) -> (r: Self)
        ensures
            r@ == (BuilderModel { status_code: Some(status_code), ..self@ }),
    {
        Self { status_code: Some(status_code), ..self }
    }

    /// Set the status message.
    pub fn status_message(self, status_message: &str) -> (r: Self)
        ensures
            r@ == (BuilderModel { status_message: Some(status_message@), ..self@ }),
    {
        Self { status_message: Some(status_message.to_owned()), ..self }
    }

    /// Add a header, overwriting the value of an already-set name in place.
    pub fn add_header(self, key: &str, value: &str) -> (r: Self)
        ensures
            r@ == (BuilderModel { headers: upsert(self@.headers, key@, value@), ..self@ }),
    {
        let mut r = self;
        upsert_exec(&mut r.headers, key.to_owned(), value.to_owned());
        r
    }

    /// Set the body. The matching `Content-Length` header is the caller's business.
    pub fn body(self, body: &str) -> (r: Self)
        ensures
            r@ == (BuilderModel { body: Some(body@), ..self@ }),
    {
        Self { body: Some(body.to_owned()), ..self }
    }

    /// Set the `Set-Cookie` header from a raw cookie value, unescaped and
    /// unvalidated.
    pub fn add_cookie(self, cookie: &str) -> (r: Self)
        ensures
            r@ == (BuilderModel { headers: upsert(self@.headers, "Set-Cookie"@, cookie@), ..self@ }),
    {
        self.add_header("Set-Cookie", cookie)
    }

    /// Resolve unset fields to their defaults and produce the response.
    pub fn build(self) -> (r: HttpResponse)
        ensures
            r@.http_version == (match self@.http_version {
                Some(v) => v,
                None => "HTTP/1.1"@,
            }),
            r@.status_code == (match self@.status_code {
                Some(c) => c,
                None => 404u32,
            }),
            r@.status_message == (match self@.status_message {
                Some(m) => m,
                None => "Not Found"@,
            }),
            r@.headers == self@.headers,
            r@.body == self@.body,
    {
        HttpResponse {
            http_version: match self.http_version {
                Some(v) => v,
                None => "HTTP/1.1".to_owned(),
            },
            status_code: match self.status_code {
                Some(c) => c,
                None => 404,
            },
            status_message: match self.status_message {
                Some(m) => m,
                None => "Not Found".to_owned(),
            },
            headers: self.headers,
            body: self.body,
        }
    }
}

/// The pieces of `ps` that are not empty (the request line is split on
/// spaces, and runs of spaces leave empty pieces behind).
pub open spec fn nonblank(ps: Seq<Seq<char>>) -> Seq<Seq<char>>
    decreases ps.len(),
{
    if ps.len() == 0 {
        Seq::empty()
    } else if ps[0].len() == 0 {
        nonblank(ps.drop_first())
    } else {
        seq![ps[0]] + nonblank(ps.drop_first())
    }
}

/// The lines before the first empty line: the header section.
pub open spec fn take_until_blank(xs: Seq<Seq<char>>) -> Seq<Seq<char>>
    decreases xs.len(),
{
    if xs.len() == 0 {
        Seq::empty()
    } else if xs[0].len() == 0 {
        Seq::empty()
    } else {
        seq![xs[0]] + take_until_blank(xs.drop_first())
    }
}

/// A header line split at the first `": "`: name before it, value after it.
/// A line without the separator is malformed.
pub open spec fn header_pair(line: Seq<char>) -> Option<(Seq<char>, Seq<char>)> {
    match find_from(line, 0, header_sep()) {
        None => None,
        Some(i) => Some((line.subrange(0, i), line.subrange(i + 2, line.len() as int))),
    }
}

/// The header map assembled from the header lines, on top of `acc`, each
/// name normalized to canonical HTTP case as it is inserted. `None` when some
/// line is malformed.
pub open spec fn headers_from(
    lines: Seq<Seq<char>>,
    acc: Seq<(Seq<char>, Seq<char>)>,
) -> Option<Seq<(Seq<char>, Seq<char>)>>
    decreases lines.len(),
{
    if lines.len() == 0 {
        Some(acc)
    } else {
        match header_pair(lines[0]) {
            None => None,
            Some(kv) => headers_from(lines.drop_first(), upsert(acc, canonical_key(kv.0), kv.1)),
        }
    }
}

/// A query pair split at the first `=`: name before it, value after it.
/// A piece without `=` is malformed.
pub open spec fn query_pair(piece: Seq<char>) -> Option<(Seq<char>, Seq<char>)> {
    match find_from(piece, 0, seq!['=']) {
        None => None,
        Some(i) => Some((piece.subrange(0, i), piece.subrange(i + 1, piece.len() as int))),
    }
}

/// The query map assembled from the `&`-separated pieces, on top of `acc`.
pub open spec fn query_from(
    pieces: Seq<Seq<char>>,
    acc: Seq<(Seq<char>, Seq<char>)>,
) -> Option<Seq<(Seq<char>, Seq<char>)>>
    decreases pieces.len(),
{
    if pieces.len() == 0 {
        Some(acc)
    } else {
        match query_pair(pieces[0]) {
            None => None,
            Some(kv) => query_from(pieces.drop_first(), upsert(acc, kv.0, kv.1)),
        }
    }
}

/// The longest prefix of `s` whose UTF-8 encoding takes exactly `n` bytes:
/// `None` when `s` encodes to fewer bytes, or when the count ends inside a
/// character.
pub open spec fn take_bytes(s: Seq<char>, n: nat) -> Option<Seq<char>>
    decreases s.len(),
{
    if n == 0 {
        Some(Seq::empty())
    } else if s.len() == 0 {
        None
    } else if char_bytes(s[0]) > n {
        None
    } else {
        match take_bytes(s.drop_first(), (n - char_bytes(s[0])) as nat) {
            None => None,
            Some(rest) => Some(seq![s[0]] + rest),
        }
    }
}

/// `o` with the pieces already read put back in front.
spec fn prefix_plus(p: Seq<char>, o: Option<Seq<char>>) -> Option<Seq<char>> {
    match o {
        None => None,
        Some(r) => Some(p + r),
    }
}

/// The body declared by the headers: the `Content-Length` many bytes after
/// the first blank line. The outer option is `None` on a malformed request: a
/// non-numeric or oversized length, a tail of fewer bytes, or a length ending
/// inside a character. A missing `Content-Length`, or one of value zero,
/// means no body.
pub open spec fn body_of(s: Seq<char>, headers: Seq<(Seq<char>, Seq<char>)>) -> Option<
    Option<Seq<char>>,
> {
    match lookup(headers, content_length_key()) {
        None => Some(None),
        Some(v) => {
            if !(v.len() > 0 && all_digits(v) && dec_val(v) <= usize::MAX) {
                None
            } else {
                let n = dec_val(v);
                if n == 0 {
                    Some(None)
                } else {
                    match find_from(s, 0, crlf() + crlf()) {
                        None => None,
                        Some(i) => {
                            match take_bytes(s.subrange(i + 4, s.len() as int), n) {
                                None => None,
                                Some(b) => Some(Some(b)),
                            }
                        },
                    }
                }
            }
        },
    }
}

/// The ghost shape of a parsed request.
pub struct ReqModel {
    pub method: Seq<char>,
    pub resource: Seq<char>,
    pub http_version: Seq<char>,
    pub headers: Seq<(Seq<char>, Seq<char>)>,
    pub body: Option<Seq<char>>,
    pub querys: Option<Seq<(Seq<char>, Seq<char>)>>,
}

/// What parsing the raw request text `s` yields: `None` on a malformed
/// request. The text is split into lines on `\r\n`; line 0 is
/// `METHOD target VERSION` (space-separated, extra tokens ignored); the lines
/// before the first empty line are headers, each split at the first `": "`,
/// with the names normalized to canonical HTTP case; the target is split at
/// the first `?` into the resource and the query string, whose `&`-separated
/// pairs are split at the first `=`; the body is the `Content-Length` many
/// bytes past the blank line, when that header carries a positive count.
pub open spec fn spec_parse(s: Seq<char>) -> Option<ReqModel> {
    let sections = split_on(s, crlf());
    let toks = nonblank(split_on(sections[0], spc()));
    if toks.len() < 3 {
        None
    } else {
        match headers_from(take_until_blank(sections.drop_first()), Seq::empty()) {
            None => None,
            Some(headers) => {
                let target = toks[1];
                match body_of(s, headers) {
                    None => None,
                    Some(body) => {
                        match find_from(target, 0, seq!['?']) {
                            None => Some(
                                ReqModel {
                                    method: toks[0],
                                    resource: target,
                                    http_version: toks[2],
                                    headers,
                                    body,
                                    querys: None,
                                },
                            ),
                            Some(q) => {
                                match query_from(
                                    split_on(target.subrange(q + 1, target.len() as int), seq!['&']),
                                    Seq::empty(),
                                ) {
                                    None => None,
                                    Some(querys) => Some(
                                        ReqModel {
                                            method: toks[0],
                                            resource: target.subrange(0, q),
                                            http_version: toks[2],
                                            headers,
                                            body,
                                            querys: Some(querys),
                                        },
                                    ),
                                }
                            },
                        }
                    },
                }
            },
        }
    }
}

/// The header section is the lines before the first blank or the end.
proof fn lemma_take_until_blank(xs: Seq<Seq<char>>, k: int)
    requires
        0 <= k <= xs.len(),
        forall|j: int| 0 <= j < k ==> xs[j].len() > 0,
        k == xs.len() || xs[k].len() == 0,
    ensures
        take_until_blank(xs) == xs.take(k),
    decreases xs.len(),
{
    if xs.len() == 0 || xs[0].len() == 0 {
        assert(take_until_blank(xs) =~= xs.take(k));
    } else {
        lemma_take_until_blank(xs.drop_first(), k - 1);
        assert(xs.drop_first().take(k - 1) =~= xs.take(k).drop_first());
        assert(take_until_blank(xs) =~= xs.take(k));
    }
}

/// While only non-blank lines have been seen, the header section extends at
/// least that far and copies them.
proof fn lemma_take_until_blank_part(xs: Seq<Seq<char>>, m: int)
    requires
        0 <= m <= xs.len(),
        forall|j: int| 0 <= j < m ==> xs[j].len() > 0,
    ensures
        take_until_blank(xs).len() >= m,
        forall|j: int| 0 <= j < m ==> take_until_blank(xs)[j] == xs[j],
    decreases xs.len(),
{
    if m > 0 && xs.len() > 0 && xs[0].len() > 0 {
        lemma_take_until_blank_part(xs.drop_first(), m - 1);
        assert forall|j: int| 0 <= j < m implies take_until_blank(xs)[j] == xs[j] by {
            if j > 0 {
                assert(take_until_blank(xs)[j] == take_until_blank(xs.drop_first())[j - 1]);
                assert(xs.drop_first()[j - 1] == xs[j]);
            }
        }
    }
}

/// The first position where `pat` occurs in `s`.
fn find_str(s: &str, pat: &str) -> (r: Option<usize>)
    requires
        pat@.len() >= 1,
    ensures
        match r {
            Some(k) => find_from(s@, 0, pat@) == Some(k as int) && k + pat@.len() <= s@.len(),
            None => find_from(s@, 0, pat@) is None,
        },
{
    let v = chars_of(s);
    let p = chars_of(pat);
    match find_sub(&v, 0, &p) {
        Some(k) => {
            proof {
                lemma_find_from_first(s@, 0, pat@, k as int);
            }
            Some(k)
        },
        None => {
            proof {
                lemma_find_from_none(s@, 0, pat@);
            }
            None
        },
    }
}

/// Split a header line at the first `": "`.
fn split_header_line(line: &str) -> (r: Option<(String, String)>)
    ensures
        match r {
            Some(kv) => header_pair(line@) == Some((kv.0@, kv.1@)),
            None => header_pair(line@) is None,
        },
{
    proof {
        reveal_strlit(": ");
        assert(": "@ =~= header_sep());
    }
    let len = line.unicode_len();
    match find_str(line, ": ") {
        Some(k) => {
            let key = extract(line, 0, k);
            let value = extract(line, k + 2, len);
            Some((key, value))
        },
        None => None,
    }
}

/// The non-blank space-separated tokens of `s`.
fn split_tokens(s: &str) -> (toks: Vec<String>)
    ensures
        toks.deep_view() == nonblank(split_on(s@, spc())),
{
    proof {
        reveal_strlit(" ");
        assert(" "@ =~= spc());
    }
    let parts = split_string(s, " ");
    let ghost ps = split_on(s@, spc());
    let mut toks: Vec<String> = Vec::new();
    let n = parts.len();
    let mut i: usize = 0;
    proof {
        assert(ps.skip(0) =~= ps);
        assert(toks.deep_view() =~= Seq::<Seq<char>>::empty());
        assert(toks.deep_view() + nonblank(ps) =~= nonblank(ps));
    }
    while i < n
        invariant
            n == parts@.len(),
            i <= n,
            ps == parts.deep_view(),
            nonblank(ps) == toks.deep_view() + nonblank(ps.skip(i as int)),
        decreases n - i,
    {
        let ghost rest = ps.skip(i as int);
        proof {
            assert(rest[0] == ps[i as int]);
            assert(rest.drop_first() =~= ps.skip(i + 1));
        }
        if !parts[i].as_str().is_empty() {
            let ghost tbefore = toks.deep_view();
            let piece = parts[i].clone();
            toks.push(piece);
            proof {
                assert(toks.deep_view() =~= tbefore.push(ps[i as int]));
                assert(toks.deep_view() + nonblank(ps.skip(i + 1)) =~= tbefore + nonblank(rest));
            }
        }
        i = i + 1;
    }
    proof {
        assert(ps.skip(n as int) =~= Seq::<Seq<char>>::empty());
        assert(toks.deep_view() + nonblank(ps.skip(n as int)) =~= toks.deep_view());
    }
    toks
}

/// Assemble the header map from the lines after the request line, up to the
/// first blank line.
fn parse_headers(sections: &Vec<String>) -> (r: Result<Vec<(String, String)>, HttpError>)
    requires
        sections@.len() >= 1,
    ensures
        match r {
            Ok(h) => headers_from(
                take_until_blank(sections.deep_view().drop_first()),
                Seq::empty(),
            ) == Some(h.deep_view()),
            Err(e) => e == HttpError::MalformedRequest && headers_from(
                take_until_blank(sections.deep_view().drop_first()),
                Seq::empty(),
            ) is None,
        },
{
    let ghost dropped = sections.deep_view().drop_first();
    let ghost hlines = take_until_blank(dropped);
    let mut headers: Vec<(String, String)> = Vec::new();
    let nsec = sections.len();
    let mut i: usize = 1;
    proof {
        assert(headers.deep_view() =~= Seq::<(Seq<char>, Seq<char>)>::empty());
        assert(hlines.skip(0) =~= hlines);
    }
    loop
        invariant
            1 <= i <= nsec,
            nsec == sections@.len(),
            dropped == sections.deep_view().drop_first(),
            hlines == take_until_blank(dropped),
            forall|j: int| 0 <= j < i - 1 ==> dropped[j].len() > 0,
            headers_from(hlines, Seq::empty()) == headers_from(
                hlines.skip(i - 1),
                headers.deep_view(),
            ),
        decreases nsec - i,
    {
        if i >= nsec {
            proof {
                lemma_take_until_blank(dropped, i - 1);
                assert(hlines.skip(i - 1) =~= Seq::<Seq<char>>::empty());
            }
            return Ok(headers);
        }
        let line = &sections[i];
        proof {
            assert(dropped[i - 1] == line@);
        }
        if line.as_str().is_empty() {
            proof {
                lemma_take_until_blank(dropped, i - 1);
                assert(hlines.skip(i - 1) =~= Seq::<Seq<char>>::empty());
            }
            return Ok(headers);
        }
        proof {
            lemma_take_until_blank_part(dropped, i as int);
            assert(hlines.skip(i - 1)[0] == dropped[i - 1]);
            assert(hlines.skip(i - 1).drop_first() =~= hlines.skip(i as int));
        }
        match split_header_line(line.as_str()) {
            Some(kv) => {
                let ghost acc = headers.deep_view();
                let key = canonicalize_key(kv.0.as_str());
                let ghost kview = key@;
                let ghost vview = kv.1@;
                upsert_exec(&mut headers, key, kv.1);
                proof {
                    assert(headers_from(hlines.skip(i - 1), acc) == headers_from(
                        hlines.skip(i as int),
                        upsert(acc, kview, vview),
                    ));
                }
                i = i + 1;
            },
            None => {
                return Err(HttpError::MalformedRequest);
            },
        }
    }
}

/// Assemble the query map from the raw query string.
fn parse_query(qs: &str) -> (r: Result<Vec<(String, String)>, HttpError>)
    ensures
        match r {
            Ok(q) => query_from(split_on(qs@, seq!['&']), Seq::empty()) == Some(q.deep_view()),
            Err(e) => e == HttpError::MalformedRequest && query_from(
                split_on(qs@, seq!['&']),
                Seq::empty(),
            ) is None,
        },
{
    proof {
        reveal_strlit("&");
        assert("&"@ =~= seq!['&']);
    }
    let pieces = split_string(qs, "&");
    let ghost ps = split_on(qs@, seq!['&']);
    let mut querys: Vec<(String, String)> = Vec::new();
    let n = pieces.len();
    let mut i: usize = 0;
    proof {
        assert(querys.deep_view() =~= Seq::<(Seq<char>, Seq<char>)>::empty());
        assert(ps.skip(0) =~= ps);
    }
    while i < n
        invariant
            i <= n,
            n == pieces@.len(),
            ps == pieces.deep_view(),
            ps == split_on(qs@, seq!['&']),
            query_from(ps, Seq::empty()) == query_from(ps.skip(i as int), querys.deep_view()),
        decreases n - i,
    {
        proof {
            reveal_strlit("=");
            assert("="@ =~= seq!['=']);
            assert(ps.skip(i as int)[0] == ps[i as int]);
            assert(ps.skip(i as int).drop_first() =~= ps.skip(i + 1));
        }
        let piece = &pieces[i];
        proof {
            assert(ps[i as int] == piece@);
        }
        let plen = piece.as_str().unicode_len();
        match find_str(piece.as_str(), "=") {
            Some(e) => {
                let key = extract(piece.as_str(), 0, e);
                let value = extract(piece.as_str(), e + 1, plen);
                let ghost acc = querys.deep_view();
                let ghost kview = key@;
                let ghost vview = value@;
                upsert_exec(&mut querys, key, value);
                proof {
                    assert(query_from(ps.skip(i as int), acc) == query_from(
                        ps.skip(i + 1),
                        upsert(acc, kview, vview),
                    ));
                }
            },
            None => {
                proof {
                    assert(query_from(ps.skip(i as int), querys.deep_view()) is None);
                }
                return Err(HttpError::MalformedRequest);
            },
        }
        i = i + 1;
    }
    proof {
        assert(ps.skip(n as int) =~= Seq::<Seq<char>>::empty());
    }
    Ok(querys)
}

/// The characters from position `start` on whose encoding takes exactly `n`
/// bytes, or nothing when the count cannot be met.
fn read_bytes(raw: &str, start: usize, n: usize) -> (r: Option<String>)
    requires
        start <= raw@.len(),
    ensures
        match r {
            Some(b) => take_bytes(raw@.subrange(start as int, raw@.len() as int), n as nat)
                == Some(b@),
            None => take_bytes(raw@.subrange(start as int, raw@.len() as int), n as nat) is None,
        },
{
    let len = raw.unicode_len();
    let ghost tail = raw@.subrange(start as int, raw@.len() as int);
    let mut i: usize = start;
    let mut remaining: usize = n;
    proof {
        assert(raw@.subrange(start as int, start as int) =~= Seq::<char>::empty());
        assert(take_bytes(tail, n as nat) == prefix_plus(
            raw@.subrange(start as int, start as int),
            take_bytes(raw@.subrange(i as int, raw@.len() as int), remaining as nat),
        ));
    }
    while remaining > 0
        invariant
            start <= i <= len,
            len == raw@.len(),
            remaining <= n,
            tail == raw@.subrange(start as int, raw@.len() as int),
            take_bytes(tail, n as nat) == prefix_plus(
                raw@.subrange(start as int, i as int),
                take_bytes(raw@.subrange(i as int, raw@.len() as int), remaining as nat),
            ),
        decreases remaining,
    {
        let ghost rest_old = raw@.subrange(i as int, raw@.len() as int);
        if i >= len {
            proof {
                assert(rest_old.len() == 0);
                assert(take_bytes(rest_old, remaining as nat) is None);
            }
            return None;
        }
        let c = raw.get_char(i);
        let cb = char_utf8_len(c);
        proof {
            assert(rest_old[0] == raw@[i as int]);
            assert(rest_old.drop_first() =~= raw@.subrange(i + 1, raw@.len() as int));
        }
        if cb > remaining {
            proof {
                assert(take_bytes(rest_old, remaining as nat) is None);
            }
            return None;
        }
        proof {
            let next = take_bytes(
                raw@.subrange(i + 1, raw@.len() as int),
                (remaining - cb) as nat,
            );
            assert(take_bytes(rest_old, remaining as nat) == prefix_plus(
                seq![raw@[i as int]],
                next,
            ));
            if next is Some {
                assert(raw@.subrange(start as int, i as int) + (seq![raw@[i as int]]
                    + next->Some_0) =~= raw@.subrange(start as int, i + 1) + next->Some_0);
            }
        }
        remaining = remaining - cb;
        i = i + 1;
    }
    proof {
        assert(take_bytes(raw@.subrange(i as int, raw@.len() as int), 0) == Some(
            Seq::<char>::empty(),
        ));
        assert(raw@.subrange(start as int, i as int) + Seq::<char>::empty() =~= raw@.subrange(
            start as int,
            i as int,
        ));
    }
    Some(extract(raw, start, i))
}

/// The body declared by the headers, read from past the first blank line.
fn parse_body(raw: &str, headers: &Vec<(String, String)>) -> (r: Result<
    Option<String>,
    HttpError,
>)
    ensures
        match r {
            Ok(b) => body_of(raw@, headers.deep_view()) == Some(b.deep_view()),
            Err(e) => e == HttpError::MalformedRequest && body_of(
                raw@,
                headers.deep_view(),
            ) is None,
        },
{
    proof {
        reveal_strlit("Content-Length");
        assert("Content-Length"@ =~= content_length_key());
    }
    match lookup_exec(headers, "Content-Length") {
        None => Ok(None),
        Some(v) => {
            match parse_dec(v.as_str()) {
                None => Err(HttpError::MalformedRequest),
                Some(n) => {
                    if n == 0 {
                        Ok(None)
                    } else {
                        proof {
                            reveal_strlit("\r\n\r\n");
                            assert("\r\n\r\n"@ =~= crlf() + crlf());
                        }
                        match find_str(raw, "\r\n\r\n") {
                            None => Err(HttpError::MalformedRequest),
                            Some(b) => {
                                let len = raw.unicode_len();
                                match read_bytes(raw, b + 4, n) {
                                    Some(body) => Ok(Some(body)),
                                    None => Err(HttpError::MalformedRequest),
                                }
                            },
                        }
                    }
                },
            }
        },
    }
}

/// An HTTP request parsed from raw socket text.
#[derive(Debug, PartialEq, Eq)]
pub struct HttpRequest {
    pub method: String,
    pub resource: String,
    pub http_version: String,
    pub headers: Vec<(String, String)>,
    pub body: Option<String>,
    pub querys: Option<Vec<(String, String)>>,
}

impl View for HttpRequest {
    type V = ReqModel;

    open spec fn view(&self) -> ReqModel {
        ReqModel {
            method: self.method@,
            resource: self.resource@,
            http_version: self.http_version@,
            headers: self.headers.deep_view(),
            body: self.body.deep_view(),
            querys: match self.querys {
                Some(q) => Some(q.deep_view()),
                None => None,
            },
        }
    }
}

impl HttpRequest {
    /// Parse raw request text; header names are stored in canonical HTTP
    /// case. Returns `MalformedRequest` exactly when the specification-level
    /// parse rejects the text: a request line with fewer than three tokens, a
    /// header line without `": "`, a query pair without `=`, or a bad or
    /// unsatisfied `Content-Length`.
    pub fn parse(raw_request: &str) -> (r: Result<HttpRequest, HttpError>)
        ensures
            match r {
                Ok(req) => spec_parse(raw_request@) == Some(req@),
                Err(e) => e == HttpError::MalformedRequest && spec_parse(raw_request@) is None,
            },
    {
        proof {
            reveal_strlit("\r\n");
            assert("\r\n"@ =~= crlf());
        }
        let ghost s = raw_request@;
        let sections = split_string(raw_request, "\r\n");
        let ghost secs = split_on(s, crlf());
        proof {
            assert(secs.len() >= 1);
            assert(sections.deep_view()[0] == secs[0]);
        }
        let toks = split_tokens(sections[0].as_str());
        if toks.len() < 3 {
            return Err(HttpError::MalformedRequest);
        }
        let headers = match parse_headers(&sections) {
            Ok(h) => h,
            Err(e) => {
                return Err(e);
            },
        };
        let body = match parse_body(raw_request, &headers) {
            Ok(b) => b,
            Err(e) => {
                return Err(e);
            },
        };
        let target = &toks[1];
        proof {
            reveal_strlit("?");
            assert("?"@ =~= seq!['?']);
            assert(toks.deep_view()[1] == target@);
        }
        let tlen = target.as_str().unicode_len();
        let (resource, querys): (String, Option<Vec<(String, String)>>) = match find_str(
            target.as_str(),
            "?",
        ) {
            None => (target.clone(), None),
            Some(q) => {
                let qs = extract(target.as_str(), q + 1, tlen);
                match parse_query(qs.as_str()) {
                    Ok(qm) => (extract(target.as_str(), 0, q), Some(qm)),
                    Err(e) => {
                        return Err(e);
                    },
                }
            },
        };
        let req = HttpRequest {
            method: toks[0].clone(),
            resource,
            http_version: toks[2].clone(),
            headers,
            body,
            querys,
        };
        proof {
            assert(spec_parse(s) == Some(req@));
        }
        Ok(req)
    }

    /// The value of the header named `header_name`, if any. The name is
    /// matched in canonical HTTP case, so the lookup does not mind casing.
    pub fn get_header<'a>(&'a self, header_name: &str) -> (r: Option<&'a String>)
        ensures
            match r {
                Some(v) => lookup(self@.headers, canonical_key(header_name@)) == Some(v@),
                None => lookup(self@.headers, canonical_key(header_name@)) is None,
            },
    {
        let name = canonicalize_key(header_name);
        lookup_exec(&self.headers, name.as_str())
    }
}

/// The extension `get_mime_type` goes by: the piece of the name after its
/// last dot, or nothing when the name has no dot.
pub open spec fn mime_ext(name: Seq<char>) -> Option<Seq<char>> {
    let ps = split_on(name, seq!['.']);
    if ps.len() >= 2 {
        Some(ps.last())
    } else {
        None
    }
}

/// The MIME type for a static file name: `js` and `css` extensions are known,
/// anything else is refused.
pub fn get_mime_type(file_name: &str) -> (r: Result<String, HttpError>)
    ensures
        match r {
            Ok(m) => (mime_ext(file_name@) == Some("js"@) && m@ == "text/javascript"@) || (mime_ext(
                file_name@,
            ) == Some("css"@) && m@ == "text/css"@),
            Err(e) => e == HttpError::UnknownMimeType && mime_ext(file_name@) != Some("js"@)
                && mime_ext(file_name@) != Some("css"@),
        },
{
    proof {
        reveal_strlit(".");
    }
    let parts = split_string(file_name, ".");
    proof {
        assert("."@ =~= seq!['.']);
    }
    let n = parts.len();
    if n < 2 {
        return Err(HttpError::UnknownMimeType);
    }
    let ext = &parts[n - 1];
    proof {
        assert(parts.deep_view()[n - 1] == ext@);
        assert(parts.deep_view().last() == ext@);
    }
    if str_eq(ext.as_str(), "js") {
        Ok("text/javascript".to_owned())
    } else if str_eq(ext.as_str(), "css") {
        Ok("text/css".to_owned())
    } else {
        Err(HttpError::UnknownMimeType)
    }
}

} // verus!
