//! Laws of the message framer, proved from the parser's specification: a
//! request put together from a well-formed start line, header lines, a blank
//! line and a matching body parses back to exactly those parts; a target
//! without a query string yields no query parameters, and one carrying a
//! query string yields the stripped resource and the query map.
use vstd::prelude::*;

use crate::http::content_length_key;
use crate::http::crlf;
use crate::http::header_pair;
use crate::http::header_sep;
use crate::http::headers_from;
use crate::http::headers_wire_from;
use crate::http::lemma_upsert_absent;
use crate::http::lookup;
use crate::http::nonblank;
use crate::http::query_from;
use crate::http::query_pair;
use crate::http::spc;
use crate::http::spec_parse;
use crate::http::take_bytes;
use crate::http::take_until_blank;
use crate::http::ReqModel;
use crate::http::body_of;
use crate::http::canonical_key;
use crate::http::lower_char;
use crate::http::upper_char;
use crate::strutil::all_digits;
use crate::strutil::bytes_len;
use crate::strutil::char_bytes;
use crate::strutil::dec_str;
use crate::strutil::dec_val;
use crate::strutil::digit_char;
use crate::strutil::digit_val;
use crate::strutil::find_from;
use crate::strutil::is_digit;
use crate::strutil::is_match;
use crate::strutil::lemma_find_from_first;
use crate::strutil::lemma_find_from_is_first;
use crate::strutil::lemma_find_from_none;
use crate::strutil::lemma_is_match_shift;
use crate::strutil::lemma_split_concat;
use crate::strutil::split_on;

verus! {

/// Free of the line terminator's characters.
pub open spec fn clean(s: Seq<char>) -> bool {
    forall|i: int| 0 <= i < s.len() ==> #[trigger] s[i] != '\r' && s[i] != '\n'
}

/// A request-line token: non-empty, without spaces or line terminators.
pub open spec fn wf_token(s: Seq<char>) -> bool {
    s.len() >= 1 && clean(s) && (forall|i: int| 0 <= i < s.len() ==> #[trigger] s[i] != ' ')
}

/// A header name that splits back at the separator: non-empty, clean, and
/// without a colon.
pub open spec fn wf_header_key(s: Seq<char>) -> bool {
    s.len() >= 1 && clean(s) && (forall|i: int| 0 <= i < s.len() ==> #[trigger] s[i] != ':')
}

/// A header map fit for the wire: well-formed distinct names already in
/// canonical HTTP case (the case the parser stores), clean values, and no
/// name of its own claiming the body's length.
pub open spec fn wf_headers(hs: Seq<(Seq<char>, Seq<char>)>) -> bool {
    (forall|i: int|
        0 <= i < hs.len() ==> wf_header_key((#[trigger] hs[i]).0) && canonical_key(hs[i].0)
            == hs[i].0 && clean(hs[i].1) && hs[i].0 != content_length_key()) && (forall|
        i: int,
        j: int,
    |
        0 <= i < j < hs.len() ==> (#[trigger] hs[i]).0 != (#[trigger] hs[j]).0)
}

/// The headers as they go to the wire: a `Content-Length` line, counting the
/// body's bytes, is appended exactly when a body is sent.
pub open spec fn full_headers(hs: Seq<(Seq<char>, Seq<char>)>, body: Option<Seq<char>>) -> Seq<
    (Seq<char>, Seq<char>),
> {
    match body {
        Some(b) => hs.push((content_length_key(), dec_str(bytes_len(b)))),
        None => hs,
    }
}

/// Reading back a text's own byte count gives the whole text.
proof fn lemma_take_bytes_all(b: Seq<char>)
    ensures
        take_bytes(b, bytes_len(b)) == Some(b),
    decreases b.len(),
{
    if b.len() == 0 {
        assert(Seq::<char>::empty() =~= b);
    } else {
        lemma_take_bytes_all(b.drop_first());
        assert(char_bytes(b[0]) >= 1);
        assert(bytes_len(b) == char_bytes(b[0]) + bytes_len(b.drop_first()));
        assert(seq![b[0]] + b.drop_first() =~= b);
    }
}

/// The raw text of a request put together from its parts: the start line, one
/// line per header, a blank line, and the body if one is sent.
pub open spec fn assembled_request(
    method: Seq<char>,
    target: Seq<char>,
    version: Seq<char>,
    hs: Seq<(Seq<char>, Seq<char>)>,
    body: Option<Seq<char>>,
) -> Seq<char> {
    method + spc() + target + spc() + version + crlf() + headers_wire_from(hs, 0) + crlf() + (
    match body {
        Some(b) => b,
        None => Seq::<char>::empty(),
    })
}

/// The text of each header line, without its terminator.
pub open spec fn header_texts(hs: Seq<(Seq<char>, Seq<char>)>) -> Seq<Seq<char>>
    decreases hs.len(),
{
    if hs.len() == 0 {
        Seq::empty()
    } else {
        seq![hs[0].0 + header_sep() + hs[0].1] + header_texts(hs.drop_first())
    }
}

proof fn lemma_header_texts_index(hs: Seq<(Seq<char>, Seq<char>)>)
    ensures
        header_texts(hs).len() == hs.len(),
        forall|j: int|
            0 <= j < hs.len() ==> header_texts(hs)[j] == (#[trigger] hs[j]).0 + header_sep()
                + hs[j].1,
    decreases hs.len(),
{
    if hs.len() > 0 {
        lemma_header_texts_index(hs.drop_first());
        assert forall|j: int|
            0 <= j < hs.len() implies header_texts(hs)[j] == (#[trigger] hs[j]).0 + header_sep()
            + hs[j].1 by {
            if j > 0 {
                assert(header_texts(hs)[j] == header_texts(hs.drop_first())[j - 1]);
                assert(hs.drop_first()[j - 1] == hs[j]);
            }
        }
    }
}

/// The wire text of the headers, peeled one line at a time.
proof fn lemma_headers_wire_drop(hs: Seq<(Seq<char>, Seq<char>)>, i: int)
    requires
        0 <= i,
        hs.len() >= 1,
    ensures
        headers_wire_from(hs.drop_first(), i) == headers_wire_from(hs, i + 1),
    decreases hs.len() - i,
{
    let d = hs.drop_first();
    if i < hs.len() - 1 {
        lemma_headers_wire_drop(hs, i + 1);
        assert(d[i] == hs[i + 1]);
    } else {
        assert(headers_wire_from(d, i) == Seq::<char>::empty());
        assert(headers_wire_from(hs, i + 1) == Seq::<char>::empty());
    }
}

/// The digits of a number: non-empty, digits throughout, denoting it back.
proof fn lemma_dec_str_facts(n: nat)
    ensures
        dec_str(n).len() >= 1,
        all_digits(dec_str(n)),
        dec_val(dec_str(n)) == n,
    decreases n,
{
    if n < 10 {
        let s = dec_str(n);
        assert(s == seq![digit_char(n)]);
        assert(is_digit(digit_char(n)));
        assert(digit_val(digit_char(n)) == n);
        assert(s.drop_last() =~= Seq::<char>::empty());
        assert(s.last() == digit_char(n));
        assert(dec_val(s) == dec_val(s.drop_last()) * 10 + digit_val(s.last()));
        assert(dec_val(s) == n);
        assert forall|i: int| 0 <= i < s.len() implies is_digit(#[trigger] s[i]) by {
            assert(s[i] == digit_char(n));
        }
    } else {
        lemma_dec_str_facts(n / 10);
        let s = dec_str(n);
        assert(s == dec_str(n / 10).push(digit_char(n % 10)));
        assert(s.drop_last() =~= dec_str(n / 10));
        assert(s.last() == digit_char(n % 10));
        assert(is_digit(digit_char(n % 10)));
        assert(digit_val(digit_char(n % 10)) == n % 10);
        assert(dec_val(s) == dec_val(s.drop_last()) * 10 + digit_val(s.last()));
        assert(dec_val(s) == (n / 10) * 10 + n % 10);
        assert((n / 10) * 10 + n % 10 == n) by (nonlinear_arith);
        assert(dec_val(s) == n);
        assert forall|i: int| 0 <= i < s.len() implies is_digit(#[trigger] s[i]) by {
            if i < s.len() - 1 {
                assert(s[i] == dec_str(n / 10)[i]);
            }
        }
    }
}

/// Digits are clean text and make a well-formed header value.
proof fn lemma_digits_clean(s: Seq<char>)
    requires
        all_digits(s),
    ensures
        clean(s),
{
    assert forall|i: int| 0 <= i < s.len() implies #[trigger] s[i] != '\r' && s[i] != '\n' by {
        assert(is_digit(s[i]));
    }
}

/// The start line splits back into exactly its three tokens.
proof fn lemma_tokens_of_start(method: Seq<char>, target: Seq<char>, version: Seq<char>)
    requires
        wf_token(method),
        wf_token(target),
        wf_token(version),
    ensures
        nonblank(split_on(method + spc() + target + spc() + version, spc())) == seq![
            method,
            target,
            version,
        ],
{
    let line = method + spc() + target + spc() + version;
    let rest1 = target + spc() + version;
    assert(line =~= method + spc() + rest1);
    assert forall|i: int| 0 <= i < method.len() implies method[i] != spc()[0] by {
        assert(method[i] != ' ');
    }
    lemma_split_concat(method, rest1, spc());
    assert forall|i: int| 0 <= i < target.len() implies target[i] != spc()[0] by {
        assert(target[i] != ' ');
    }
    lemma_split_concat(target, version, spc());
    assert forall|j: int| 0 <= j implies !is_match(version, j, spc()) by {
        if 0 <= j && j + 1 <= version.len() {
            if is_match(version, j, spc()) {
                assert(version.subrange(j, j + 1)[0] == spc()[0]);
                assert(version[j] == ' ');
            }
        }
    }
    lemma_find_from_none(version, 0, spc());
    assert(split_on(version, spc()) == seq![version]);
    let ps = split_on(line, spc());
    assert(ps =~= seq![method, target, version]);
    lemma_nonblank_all(ps);
}

/// The wire text of well-formed headers splits back into their lines.
proof fn lemma_split_header_lines(hs: Seq<(Seq<char>, Seq<char>)>, tail: Seq<char>)
    requires
        forall|i: int|
            0 <= i < hs.len() ==> wf_header_key((#[trigger] hs[i]).0) && clean(hs[i].1),
    ensures
        split_on(headers_wire_from(hs, 0) + tail, crlf()) == header_texts(hs) + split_on(
            tail,
            crlf(),
        ),
    decreases hs.len(),
{
    if hs.len() == 0 {
        assert(headers_wire_from(hs, 0) + tail =~= tail);
        assert(header_texts(hs) + split_on(tail, crlf()) =~= split_on(tail, crlf()));
    } else {
        let text0 = hs[0].0 + header_sep() + hs[0].1;
        let rest = hs.drop_first();
        lemma_headers_wire_drop(hs, 0);
        assert(headers_wire_from(hs, 0) + tail =~= text0 + crlf() + (headers_wire_from(rest, 0)
            + tail));
        assert forall|i: int| 0 <= i < text0.len() implies text0[i] != crlf()[0] by {
            if i < hs[0].0.len() {
                assert(text0[i] == hs[0].0[i]);
            } else if i < hs[0].0.len() + 2 {
                assert(text0[i] == header_sep()[i - hs[0].0.len()]);
            } else {
                assert(text0[i] == hs[0].1[i - hs[0].0.len() - 2]);
            }
        }
        lemma_split_concat(text0, headers_wire_from(rest, 0) + tail, crlf());
        assert forall|i: int|
            0 <= i < rest.len() implies wf_header_key((#[trigger] rest[i]).0) && clean(
            rest[i].1,
        ) by {
            assert(rest[i] == hs[i + 1]);
        }
        lemma_split_header_lines(rest, tail);
        assert(seq![text0] + (header_texts(rest) + split_on(tail, crlf())) =~= header_texts(hs)
            + split_on(tail, crlf()));
    }
}

/// The header section of the assembled lines is exactly those lines.
proof fn lemma_take_until_blank_concat(xs: Seq<Seq<char>>, ys: Seq<Seq<char>>)
    requires
        forall|j: int| 0 <= j < xs.len() ==> (#[trigger] xs[j]).len() > 0,
        ys.len() >= 1,
        ys[0].len() == 0,
    ensures
        take_until_blank(xs + ys) == xs,
    decreases xs.len(),
{
    if xs.len() == 0 {
        assert(xs + ys =~= ys);
        assert(take_until_blank(ys) =~= xs);
    } else {
        assert((xs + ys).drop_first() =~= xs.drop_first() + ys);
        lemma_take_until_blank_concat(xs.drop_first(), ys);
        assert((xs + ys)[0] == xs[0]);
        assert(take_until_blank(xs + ys) =~= xs);
    }
}

/// Each assembled header line splits back at its separator.
proof fn lemma_header_pair_of_text(k: Seq<char>, v: Seq<char>)
    requires
        wf_header_key(k),
        clean(v),
    ensures
        header_pair(k + header_sep() + v) == Some((k, v)),
{
    let text = k + header_sep() + v;
    assert(is_match(text, k.len() as int, header_sep())) by {
        assert forall|m: int|
            0 <= m < 2 implies text.subrange(k.len() as int, k.len() as int + 2)[m] == header_sep()[m] by {
            assert(text[k.len() + m] == header_sep()[m]);
        }
        assert(text.subrange(k.len() as int, k.len() as int + 2) =~= header_sep());
    }
    assert forall|j: int| 0 <= j < k.len() implies !is_match(text, j, header_sep()) by {
        if is_match(text, j, header_sep()) {
            assert(text.subrange(j, j + 2)[0] == header_sep()[0]);
            assert(text[j] == k[j]);
        }
    }
    lemma_find_from_first(text, 0, header_sep(), k.len() as int);
    assert(text.subrange(0, k.len() as int) =~= k);
    assert(text.subrange(k.len() as int + 2, text.len() as int) =~= v);
}

/// Assembling the header map from its own lines gives it back, the names
/// already standing in the canonical case the parser normalizes to.
proof fn lemma_headers_from_texts(hs: Seq<(Seq<char>, Seq<char>)>, acc: Seq<(Seq<char>, Seq<char>)>)
    requires
        forall|i: int|
            0 <= i < hs.len() ==> wf_header_key((#[trigger] hs[i]).0) && canonical_key(
                (#[trigger] hs[i]).0,
            ) == hs[i].0 && clean(hs[i].1),
        forall|i: int, j: int|
            0 <= i < j < hs.len() ==> (#[trigger] hs[i]).0 != (#[trigger] hs[j]).0,
        forall|i: int, j: int|
            0 <= i < acc.len() && 0 <= j < hs.len() ==> (#[trigger] acc[i]).0 != (
            #[trigger] hs[j]).0,
    ensures
        headers_from(header_texts(hs), acc) == Some(acc + hs),
    decreases hs.len(),
{
    if hs.len() == 0 {
        assert(acc + hs =~= acc);
    } else {
        let rest = hs.drop_first();
        lemma_header_pair_of_text(hs[0].0, hs[0].1);
        assert(header_texts(hs)[0] == hs[0].0 + header_sep() + hs[0].1);
        assert(header_texts(hs).drop_first() =~= header_texts(rest));
        assert(canonical_key(hs[0].0) == hs[0].0);
        assert forall|i: int| 0 <= i < acc.len() implies (#[trigger] acc[i]).0 != hs[0].0 by {
            assert(acc[i].0 != hs[0].0);
        }
        lemma_upsert_absent(acc, hs[0].0, hs[0].1);
        let acc2 = acc.push((hs[0].0, hs[0].1));
        assert forall|i: int| 0 <= i < rest.len() implies (#[trigger] rest[i]) == hs[i + 1] by {}
        assert forall|i: int, j: int|
            0 <= i < acc2.len() && 0 <= j < rest.len() implies (#[trigger] acc2[i]).0 != (
        #[trigger] rest[j]).0 by {
            assert(rest[j] == hs[j + 1]);
            if i < acc.len() {
                assert(acc2[i] == acc[i]);
            } else {
                assert(acc2[i] == (hs[0].0, hs[0].1));
            }
        }
        lemma_headers_from_texts(rest, acc2);
        assert(acc2 + rest =~= acc + hs);
        assert(hs[0] == (hs[0].0, hs[0].1));
    }
}

/// A name none of the entries carries is not found.
proof fn lemma_lookup_absent(m: Seq<(Seq<char>, Seq<char>)>, k: Seq<char>)
    requires
        forall|i: int| 0 <= i < m.len() ==> (#[trigger] m[i]).0 != k,
    ensures
        lookup(m, k) is None,
    decreases m.len(),
{
    if m.len() > 0 {
        lemma_lookup_absent(m.drop_first(), k);
    }
}

/// A name appended to entries that do not carry it is found with its value.
proof fn lemma_lookup_at_end(m: Seq<(Seq<char>, Seq<char>)>, k: Seq<char>, v: Seq<char>)
    requires
        forall|i: int| 0 <= i < m.len() ==> (#[trigger] m[i]).0 != k,
    ensures
        lookup(m.push((k, v)), k) == Some(v),
    decreases m.len(),
{
    let p = m.push((k, v));
    if m.len() == 0 {
        assert(p[0] == (k, v));
    } else {
        assert(p[0] == m[0]);
        assert(p.drop_first() =~= m.drop_first().push((k, v)));
        lemma_lookup_at_end(m.drop_first(), k, v);
    }
}

/// Concatenation keeps text clean.
proof fn lemma_clean_concat(a: Seq<char>, b: Seq<char>)
    requires
        clean(a),
        clean(b),
    ensures
        clean(a + b),
{
    assert forall|i: int| 0 <= i < (a + b).len() implies #[trigger] (a + b)[i] != '\r' && (a + b)[i]
        != '\n' by {
        if i < a.len() {
            assert((a + b)[i] == a[i]);
        } else {
            assert((a + b)[i] == b[i - a.len()]);
        }
    }
}

/// The name of the body-length header is itself a well-formed header name,
/// already in canonical case.
proof fn lemma_cl_key_wf()
    ensures
        wf_header_key(content_length_key()),
        canonical_key(content_length_key()) == content_length_key(),
{
    let k = content_length_key();
    assert(k.len() == 14);
    assert forall|i: int| 0 <= i < k.len() implies #[trigger] k[i] != '\r' && k[i] != '\n' && k[i]
        != ':' by {
    }
    assert forall|i: int| 0 <= i < k.len() implies #[trigger] canonical_key(k)[i] == k[i] by {
        if i == 0 || k[i - 1] == '-' {
            assert(canonical_key(k)[i] == upper_char(k[i]));
        } else {
            assert(canonical_key(k)[i] == lower_char(k[i]));
        }
    }
    assert(canonical_key(k) =~= k);
}

/// The first blank line of an assembled request stands where the headers end.
proof fn lemma_first_blank(start: Seq<char>, hs: Seq<(Seq<char>, Seq<char>)>, body: Seq<char>)
    requires
        clean(start),
        start.len() >= 1,
        forall|i: int|
            0 <= i < hs.len() ==> wf_header_key((#[trigger] hs[i]).0) && clean(hs[i].1),
    ensures
        find_from(
            start + crlf() + headers_wire_from(hs, 0) + crlf() + body,
            0,
            crlf() + crlf(),
        ) == Some(start.len() + headers_wire_from(hs, 0).len() as int),
    decreases hs.len(),
{
    let p4 = crlf() + crlf();
    assert(p4.len() == 4);
    assert(p4[0] == '\r' && p4[1] == '\n' && p4[2] == '\r' && p4[3] == '\n');
    let s = start + crlf() + headers_wire_from(hs, 0) + crlf() + body;
    if hs.len() == 0 {
        assert(headers_wire_from(hs, 0) == Seq::<char>::empty());
        assert(is_match(s, start.len() as int, p4)) by {
            assert forall|m: int|
                0 <= m < 4 implies s.subrange(start.len() as int, start.len() as int + 4)[m]
                == p4[m] by {
                assert(s[start.len() + m] == p4[m]);
            }
            assert(s.subrange(start.len() as int, start.len() as int + 4) =~= p4);
        }
        assert forall|j: int| 0 <= j < start.len() implies !is_match(s, j, p4) by {
            if is_match(s, j, p4) {
                assert(s.subrange(j, j + 4)[0] == p4[0]);
                assert(s[j] == start[j]);
            }
        }
        lemma_find_from_first(s, 0, p4, start.len() as int);
    } else {
        let text0 = hs[0].0 + header_sep() + hs[0].1;
        let rest = hs.drop_first();
        lemma_headers_wire_drop(hs, 0);
        let s2 = text0 + crlf() + headers_wire_from(rest, 0) + crlf() + body;
        assert(s =~= (start + crlf()) + s2);
        assert forall|i: int|
            0 <= i < rest.len() implies wf_header_key((#[trigger] rest[i]).0) && clean(
            rest[i].1,
        ) by {
            assert(rest[i] == hs[i + 1]);
        }
        assert(clean(text0)) by {
            assert forall|i: int| 0 <= i < text0.len() implies #[trigger] text0[i] != '\r'
                && text0[i] != '\n' by {
                if i < hs[0].0.len() {
                    assert(text0[i] == hs[0].0[i]);
                } else if i < hs[0].0.len() + 2 {
                    assert(text0[i] == header_sep()[i - hs[0].0.len()]);
                } else {
                    assert(text0[i] == hs[0].1[i - hs[0].0.len() - 2]);
                }
            }
        }
        lemma_first_blank(text0, rest, body);
        let k2 = text0.len() + headers_wire_from(rest, 0).len() as int;
        assert(find_from(s2, 0, p4) == Some(k2));
        lemma_find_from_is_first(s2, 0, p4, k2);
        let base = start.len() as int + 2;
        assert(s.subrange(base, s.len() as int) =~= s2);
        assert forall|j: int| 0 <= j < base + k2 implies !is_match(s, j, p4) by {
            if j < start.len() {
                if is_match(s, j, p4) {
                    assert(s.subrange(j, j + 4)[0] == p4[0]);
                    assert(s[j] == start[j]);
                }
            } else if j == start.len() {
                if is_match(s, j, p4) {
                    assert(s.subrange(j, j + 4)[2] == p4[2]);
                    assert(s[j + 2] == s2[0]);
                    assert(s2[0] == text0[0]);
                    assert(text0[0] == hs[0].0[0]);
                }
            } else if j == start.len() + 1 {
                if is_match(s, j, p4) {
                    assert(s.subrange(j, j + 4)[0] == p4[0]);
                    assert(s[j] == crlf()[1]);
                }
            } else {
                if j + 4 <= s.len() {
                    lemma_is_match_shift(s, base, s.len() as int, j - base, p4);
                }
            }
        }
        assert(is_match(s, base + k2, p4)) by {
            lemma_is_match_shift(s, base, s.len() as int, k2, p4);
        }
        lemma_find_from_first(s, 0, p4, base + k2);
        assert(headers_wire_from(hs, 0).len() == text0.len() + 2 + headers_wire_from(
            rest,
            0,
        ).len());
    }
}

/// The shared trunk of the recovery laws: in the assembled request, the
/// request line yields its three tokens, the header lines assemble back to
/// the map, and the declared body is read back from past the blank line.
proof fn lemma_parse_core(
    method: Seq<char>,
    target: Seq<char>,
    version: Seq<char>,
    hs: Seq<(Seq<char>, Seq<char>)>,
    body: Option<Seq<char>>,
)
    requires
        wf_token(method),
        wf_token(target),
        wf_token(version),
        wf_headers(hs),
        match body {
            Some(b) => 1 <= bytes_len(b) <= usize::MAX,
            None => true,
        },
    ensures
        ({
            let s = assembled_request(method, target, version, full_headers(hs, body), body);
            let sections = split_on(s, crlf());
            nonblank(split_on(sections[0], spc())) == seq![method, target, version]
                && headers_from(take_until_blank(sections.drop_first()), Seq::empty()) == Some(
                full_headers(hs, body),
            ) && body_of(s, full_headers(hs, body)) == Some(body)
        }),
{
    let full = full_headers(hs, body);
    let bodytext = match body {
        Some(b) => b,
        None => Seq::<char>::empty(),
    };
    let s = assembled_request(method, target, version, full, body);
    let start = method + spc() + target + spc() + version;
    let hw = headers_wire_from(full, 0);

    // The assembled headers are well formed, the body-length line included.
    assert forall|i: int|
        0 <= i < full.len() implies wf_header_key((#[trigger] full[i]).0) && canonical_key(
        (#[trigger] full[i]).0,
    ) == full[i].0 && clean(full[i].1) by {
        if i < hs.len() {
            assert(full[i] == hs[i]);
        } else {
            lemma_cl_key_wf();
            let b = body->Some_0;
            lemma_dec_str_facts(bytes_len(b));
            lemma_digits_clean(dec_str(bytes_len(b)));
        }
    }

    // The request line is clean, so the text splits at its first terminator.
    assert(clean(spc())) by {
        assert forall|i: int| 0 <= i < 1 implies #[trigger] spc()[i] != '\r' && spc()[i]
            != '\n' by {
            assert(spc()[i] == ' ');
        }
    }
    lemma_clean_concat(method, spc());
    lemma_clean_concat(method + spc(), target);
    lemma_clean_concat(method + spc() + target, spc());
    lemma_clean_concat(method + spc() + target + spc(), version);
    assert forall|i: int| 0 <= i < start.len() implies start[i] != crlf()[0] by {
        assert(start[i] != '\r');
    }
    assert(s =~= start + crlf() + (hw + crlf() + bodytext));
    lemma_split_concat(start, hw + crlf() + bodytext, crlf());

    // The header lines split off one per header, then the blank line.
    assert(hw + crlf() + bodytext =~= hw + (crlf() + bodytext));
    lemma_split_header_lines(full, crlf() + bodytext);
    assert(Seq::<char>::empty() + crlf() + bodytext =~= crlf() + bodytext);
    lemma_split_concat(Seq::<char>::empty(), bodytext, crlf());
    let sections = split_on(s, crlf());
    let tailpieces = seq![Seq::<char>::empty()] + split_on(bodytext, crlf());
    assert(sections =~= seq![start] + (header_texts(full) + tailpieces));
    assert(sections[0] == start);

    // The request line yields its three tokens.
    lemma_tokens_of_start(method, target, version);
    let toks = nonblank(split_on(sections[0], spc()));
    assert(toks == seq![method, target, version]);
    assert(toks.len() == 3);
    assert(toks[0] == method && toks[1] == target && toks[2] == version);

    // The header section is the header lines, and assembles to the map.
    lemma_header_texts_index(full);
    assert forall|j: int|
        0 <= j < header_texts(full).len() implies (#[trigger] header_texts(full)[j]).len() > 0 by {
        assert(header_texts(full)[j] == full[j].0 + header_sep() + full[j].1);
    }
    assert(sections.drop_first() =~= header_texts(full) + tailpieces);
    lemma_take_until_blank_concat(header_texts(full), tailpieces);
    assert forall|i: int, j: int|
        0 <= i < j < full.len() implies (#[trigger] full[i]).0 != (#[trigger] full[j]).0 by {
        if j < hs.len() {
            assert(full[i] == hs[i] && full[j] == hs[j]);
        } else {
            assert(full[i] == hs[i]);
            assert(full[j].0 == content_length_key());
        }
    }
    lemma_headers_from_texts(full, Seq::empty());
    assert(Seq::<(Seq<char>, Seq<char>)>::empty() + full =~= full);
    assert(headers_from(take_until_blank(sections.drop_first()), Seq::empty()) == Some(full));

    // The declared body is read back from past the blank line.
    match body {
        None => {
            assert forall|i: int|
                0 <= i < full.len() implies (#[trigger] full[i]).0 != content_length_key() by {
                assert(full[i] == hs[i]);
            }
            lemma_lookup_absent(full, content_length_key());
            assert(body_of(s, full) == Some(Option::<Seq<char>>::None));
        },
        Some(b) => {
            lemma_lookup_at_end(hs, content_length_key(), dec_str(bytes_len(b)));
            assert(lookup(full, content_length_key()) == Some(dec_str(bytes_len(b))));
            lemma_dec_str_facts(bytes_len(b));
            assert(clean(start)) by {
                lemma_clean_concat(method + spc() + target + spc(), version);
            }
            lemma_first_blank(start, full, b);
            assert(start + crlf() + hw + crlf() + b =~= s);
            let q = start.len() + hw.len() as int;
            assert(find_from(s, 0, crlf() + crlf()) == Some(q));
            assert(s.subrange(q + 4, s.len() as int) =~= b);
            lemma_take_bytes_all(b);
            assert(body_of(s, full) == Some(Some(b)));
        },
    }

}

/// Parsing recovers an assembled request: for any well-formed method, target
/// (without a query string), version, header map, and optional body of
/// declared length, the text put together from them parses back to exactly
/// those parts, with no query parameters.
pub proof fn lemma_parse_recovers(
    method: Seq<char>,
    target: Seq<char>,
    version: Seq<char>,
    hs: Seq<(Seq<char>, Seq<char>)>,
    body: Option<Seq<char>>,
)
    requires
        wf_token(method),
        wf_token(target),
        wf_token(version),
        forall|i: int| 0 <= i < target.len() ==> #[trigger] target[i] != '?',
        wf_headers(hs),
        match body {
            Some(b) => 1 <= bytes_len(b) <= usize::MAX,
            None => true,
        },
    ensures
        spec_parse(assembled_request(method, target, version, full_headers(hs, body), body))
            == Some(
            ReqModel {
                method: method,
                resource: target,
                http_version: version,
                headers: full_headers(hs, body),
                body: body,
                querys: None,
            },
        ),
{
    lemma_parse_core(method, target, version, hs, body);
    let s = assembled_request(method, target, version, full_headers(hs, body), body);

    // The target has no query marker, so there are no query parameters.
    assert forall|j: int| 0 <= j implies !is_match(target, j, seq!['?']) by {
        if 0 <= j && j + 1 <= target.len() {
            if is_match(target, j, seq!['?']) {
                assert(target.subrange(j, j + 1)[0] == seq!['?'][0]);
            }
        }
    }
    lemma_find_from_none(target, 0, seq!['?']);

    assert(spec_parse(s) == Some(
        ReqModel {
            method: method,
            resource: target,
            http_version: version,
            headers: full_headers(hs, body),
            body: body,
            querys: None,
        },
    ));
}


/// Text fit for a query piece: free of spaces, line terminators, and the
/// pair separator.
pub open spec fn wf_query_text(s: Seq<char>) -> bool {
    forall|i: int|
        0 <= i < s.len() ==> #[trigger] s[i] != ' ' && s[i] != '\r' && s[i] != '\n' && s[i] != '&'
}

/// A query name: query text without the `=` that ends it on the wire.
pub open spec fn wf_query_key(s: Seq<char>) -> bool {
    wf_query_text(s) && (forall|i: int| 0 <= i < s.len() ==> #[trigger] s[i] != '=')
}

/// A query map fit for the wire: well-formed distinct names and values.
pub open spec fn wf_query(qs: Seq<(Seq<char>, Seq<char>)>) -> bool {
    (forall|i: int|
        0 <= i < qs.len() ==> wf_query_key((#[trigger] qs[i]).0) && wf_query_text(qs[i].1)) && (
    forall|i: int, j: int|
        0 <= i < j < qs.len() ==> (#[trigger] qs[i]).0 != (#[trigger] qs[j]).0)
}

/// The raw query string of the pairs: `name=value` pieces joined by `&`.
pub open spec fn query_wire(qs: Seq<(Seq<char>, Seq<char>)>) -> Seq<char>
    decreases qs.len(),
{
    if qs.len() == 0 {
        Seq::empty()
    } else if qs.len() == 1 {
        qs[0].0 + seq!['='] + qs[0].1
    } else {
        qs[0].0 + seq!['='] + qs[0].1 + seq!['&'] + query_wire(qs.drop_first())
    }
}

/// The text of each query piece.
pub open spec fn query_texts(qs: Seq<(Seq<char>, Seq<char>)>) -> Seq<Seq<char>>
    decreases qs.len(),
{
    if qs.len() == 0 {
        Seq::empty()
    } else {
        seq![qs[0].0 + seq!['='] + qs[0].1] + query_texts(qs.drop_first())
    }
}

/// No character of a well-formed query string is a space, a line terminator,
/// or anything but its pieces and their separators.
proof fn lemma_query_wire_clean(qs: Seq<(Seq<char>, Seq<char>)>)
    requires
        wf_query(qs),
    ensures
        forall|i: int|
            0 <= i < query_wire(qs).len() ==> #[trigger] query_wire(qs)[i] != ' ' && query_wire(
                qs,
            )[i] != '\r' && query_wire(qs)[i] != '\n',
    decreases qs.len(),
{
    if qs.len() == 0 {
    } else {
        let text0 = qs[0].0 + seq!['='] + qs[0].1;
        assert forall|i: int|
            0 <= i < text0.len() implies #[trigger] text0[i] != ' ' && text0[i] != '\r' && text0[i]
            != '\n' && text0[i] != '&' by {
            if i < qs[0].0.len() {
                assert(text0[i] == qs[0].0[i]);
            } else if i == qs[0].0.len() {
                assert(text0[i] == '=');
            } else {
                assert(text0[i] == qs[0].1[i - qs[0].0.len() - 1]);
            }
        }
        if qs.len() == 1 {
            assert(query_wire(qs) == text0);
        } else {
            let rest = qs.drop_first();
            assert(wf_query(rest)) by {
                assert(forall|i: int|
                    0 <= i < rest.len() ==> (#[trigger] rest[i]) == qs[i + 1]);
            }
            lemma_query_wire_clean(rest);
            let qw = query_wire(qs);
            assert(qw =~= text0 + seq!['&'] + query_wire(rest));
            assert forall|i: int|
                0 <= i < qw.len() implies #[trigger] qw[i] != ' ' && qw[i] != '\r' && qw[i]
                != '\n' by {
                if i < text0.len() {
                    assert(qw[i] == text0[i]);
                } else if i == text0.len() {
                    assert(qw[i] == '&');
                } else {
                    assert(qw[i] == query_wire(rest)[i - text0.len() - 1]);
                }
            }
        }
    }
}

/// The raw query string splits back into its pieces.
proof fn lemma_split_query(qs: Seq<(Seq<char>, Seq<char>)>)
    requires
        qs.len() >= 1,
        wf_query(qs),
    ensures
        split_on(query_wire(qs), seq!['&']) == query_texts(qs),
    decreases qs.len(),
{
    let text0 = qs[0].0 + seq!['='] + qs[0].1;
    assert forall|i: int| 0 <= i < text0.len() implies text0[i] != seq!['&'][0] by {
        if i < qs[0].0.len() {
            assert(text0[i] == qs[0].0[i]);
        } else if i == qs[0].0.len() {
            assert(text0[i] == '=');
        } else {
            assert(text0[i] == qs[0].1[i - qs[0].0.len() - 1]);
        }
    }
    if qs.len() == 1 {
        assert forall|j: int| 0 <= j implies !is_match(text0, j, seq!['&']) by {
            if 0 <= j && j + 1 <= text0.len() {
                if is_match(text0, j, seq!['&']) {
                    assert(text0.subrange(j, j + 1)[0] == seq!['&'][0]);
                }
            }
        }
        lemma_find_from_none(text0, 0, seq!['&']);
        assert(query_wire(qs) == text0);
        assert(split_on(query_wire(qs), seq!['&']) == seq![query_wire(qs)]);
        assert(query_texts(qs.drop_first()).len() == 0);
        assert(split_on(query_wire(qs), seq!['&']) =~= query_texts(qs));
    } else {
        let rest = qs.drop_first();
        assert(wf_query(rest)) by {
            assert(forall|i: int| 0 <= i < rest.len() ==> (#[trigger] rest[i]) == qs[i + 1]);
        }
        assert(query_wire(qs) =~= text0 + seq!['&'] + query_wire(rest));
        lemma_split_concat(text0, query_wire(rest), seq!['&']);
        lemma_split_query(rest);
        assert(seq![text0] + query_texts(rest) =~= query_texts(qs));
    }
}

/// Each assembled query piece splits back at its first `=`.
proof fn lemma_query_pair_of_text(k: Seq<char>, v: Seq<char>)
    requires
        forall|i: int| 0 <= i < k.len() ==> #[trigger] k[i] != '=',
    ensures
        query_pair(k + seq!['='] + v) == Some((k, v)),
{
    let text = k + seq!['='] + v;
    assert(is_match(text, k.len() as int, seq!['='])) by {
        assert(text.subrange(k.len() as int, k.len() as int + 1) =~= seq!['=']);
    }
    assert forall|j: int| 0 <= j < k.len() implies !is_match(text, j, seq!['=']) by {
        if is_match(text, j, seq!['=']) {
            assert(text.subrange(j, j + 1)[0] == seq!['='][0]);
            assert(text[j] == k[j]);
        }
    }
    lemma_find_from_first(text, 0, seq!['='], k.len() as int);
    assert(text.subrange(0, k.len() as int) =~= k);
    assert(text.subrange(k.len() as int + 1, text.len() as int) =~= v);
}

/// Assembling the query map from its own pieces gives it back.
proof fn lemma_query_from_texts(qs: Seq<(Seq<char>, Seq<char>)>, acc: Seq<(Seq<char>, Seq<char>)>)
    requires
        forall|i: int| 0 <= i < qs.len() ==> wf_query_key((#[trigger] qs[i]).0),
        forall|i: int, j: int|
            0 <= i < j < qs.len() ==> (#[trigger] qs[i]).0 != (#[trigger] qs[j]).0,
        forall|i: int, j: int|
            0 <= i < acc.len() && 0 <= j < qs.len() ==> (#[trigger] acc[i]).0 != (
            #[trigger] qs[j]).0,
    ensures
        query_from(query_texts(qs), acc) == Some(acc + qs),
    decreases qs.len(),
{
    if qs.len() == 0 {
        assert(acc + qs =~= acc);
    } else {
        let rest = qs.drop_first();
        lemma_query_pair_of_text(qs[0].0, qs[0].1);
        assert(query_texts(qs)[0] == qs[0].0 + seq!['='] + qs[0].1);
        assert(query_texts(qs).drop_first() =~= query_texts(rest));
        assert forall|i: int| 0 <= i < acc.len() implies (#[trigger] acc[i]).0 != qs[0].0 by {
            assert(acc[i].0 != qs[0].0);
        }
        lemma_upsert_absent(acc, qs[0].0, qs[0].1);
        let acc2 = acc.push((qs[0].0, qs[0].1));
        assert forall|i: int| 0 <= i < rest.len() implies (#[trigger] rest[i]) == qs[i + 1] by {}
        assert forall|i: int, j: int|
            0 <= i < acc2.len() && 0 <= j < rest.len() implies (#[trigger] acc2[i]).0 != (
        #[trigger] rest[j]).0 by {
            assert(rest[j] == qs[j + 1]);
            if i < acc.len() {
                assert(acc2[i] == acc[i]);
            } else {
                assert(acc2[i] == (qs[0].0, qs[0].1));
            }
        }
        lemma_query_from_texts(rest, acc2);
        assert(acc2 + rest =~= acc + qs);
        assert(qs[0] == (qs[0].0, qs[0].1));
    }
}

/// Parsing recovers an assembled request whose target carries a query string:
/// the resource comes back with the query stripped, and the `&`-separated
/// `name=value` pairs come back as the query map.
pub proof fn lemma_parse_recovers_query(
    method: Seq<char>,
    path: Seq<char>,
    version: Seq<char>,
    hs: Seq<(Seq<char>, Seq<char>)>,
    qs: Seq<(Seq<char>, Seq<char>)>,
    body: Option<Seq<char>>,
)
    requires
        wf_token(method),
        wf_token(path),
        wf_token(version),
        forall|i: int| 0 <= i < path.len() ==> #[trigger] path[i] != '?',
        qs.len() >= 1,
        wf_query(qs),
        wf_headers(hs),
        match body {
            Some(b) => 1 <= bytes_len(b) <= usize::MAX,
            None => true,
        },
    ensures
        spec_parse(
            assembled_request(
                method,
                path + seq!['?'] + query_wire(qs),
                version,
                full_headers(hs, body),
                body,
            ),
        ) == Some(
            ReqModel {
                method: method,
                resource: path,
                http_version: version,
                headers: full_headers(hs, body),
                body: body,
                querys: Some(qs),
            },
        ),
{
    let qw = query_wire(qs);
    let target = path + seq!['?'] + qw;
    lemma_query_wire_clean(qs);
    assert(wf_token(target)) by {
        assert forall|i: int|
            0 <= i < target.len() implies #[trigger] target[i] != ' ' && target[i] != '\r'
            && target[i] != '\n' by {
            if i < path.len() {
                assert(target[i] == path[i]);
            } else if i == path.len() {
                assert(target[i] == '?');
            } else {
                assert(target[i] == qw[i - path.len() - 1]);
            }
        }
    }
    lemma_parse_core(method, target, version, hs, body);
    let s = assembled_request(method, target, version, full_headers(hs, body), body);

    // The first query marker stands right after the path.
    assert(is_match(target, path.len() as int, seq!['?'])) by {
        assert(target.subrange(path.len() as int, path.len() as int + 1) =~= seq!['?']);
    }
    assert forall|j: int| 0 <= j < path.len() implies !is_match(target, j, seq!['?']) by {
        if is_match(target, j, seq!['?']) {
            assert(target.subrange(j, j + 1)[0] == seq!['?'][0]);
            assert(target[j] == path[j]);
        }
    }
    lemma_find_from_first(target, 0, seq!['?'], path.len() as int);
    assert(target.subrange(0, path.len() as int) =~= path);
    assert(target.subrange(path.len() as int + 1, target.len() as int) =~= qw);

    // The query string splits into its pairs and assembles to the map.
    lemma_split_query(qs);
    lemma_query_from_texts(qs, Seq::empty());
    assert(Seq::<(Seq<char>, Seq<char>)>::empty() + qs =~= qs);

    assert(spec_parse(s) == Some(
        ReqModel {
            method: method,
            resource: path,
            http_version: version,
            headers: full_headers(hs, body),
            body: body,
            querys: Some(qs),
        },
    ));
}

/// A piece list without empty pieces is its own token list.
proof fn lemma_nonblank_all(ps: Seq<Seq<char>>)
    requires
        forall|i: int| 0 <= i < ps.len() ==> (#[trigger] ps[i]).len() > 0,
    ensures
        nonblank(ps) == ps,
    decreases ps.len(),
{
    if ps.len() > 0 {
        lemma_nonblank_all(ps.drop_first());
        assert(nonblank(ps) =~= ps);
    } else {
        assert(nonblank(ps) =~= ps);
    }
}

} // verus!
