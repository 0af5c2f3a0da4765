//! Character-sequence utilities shared by the HTTP parser and serializer:
//! substring search, splitting on a separator, and decimal conversion, each
//! with a specification-level definition and a verified executable form.
use vstd::prelude::*;
use vstd::string::StrSliceExecFns;
use vstd::string::StringExecFns;

verus! {

/// `c` is a decimal digit.
pub open spec fn is_digit(c: char) -> bool {
    48 <= c as u32 <= 57
}

/// The value of the digit `c`.
pub open spec fn digit_val(c: char) -> nat {
    (c as u32 - 48) as nat
}

/// Every character of `s` is a decimal digit.
pub open spec fn all_digits(s: Seq<char>) -> bool {
    forall|i: int| 0 <= i < s.len() ==> is_digit(#[trigger] s[i])
}

/// The number denoted by the digit string `s` (0 when empty).
pub open spec fn dec_val(s: Seq<char>) -> nat
    decreases s.len(),
{
    if s.len() == 0 {
        0
    } else {
        dec_val(s.drop_last()) * 10 + digit_val(s.last())
    }
}

/// The digit standing for the value `d`.
pub open spec fn digit_char(d: nat) -> char {
    if d == 0 { '0' }
    else if d == 1 { '1' }
    else if d == 2 { '2' }
    else if d == 3 { '3' }
    else if d == 4 { '4' }
    else if d == 5 { '5' }
    else if d == 6 { '6' }
    else if d == 7 { '7' }
    else if d == 8 { '8' }
    else if d == 9 { '9' }
    else { '0' }
}

/// The decimal digit string of `n`, without leading zeros (just "0" for 0).
pub open spec fn dec_str(n: nat) -> Seq<char>
    decreases n,
{
    if n < 10 {
        seq![digit_char(n)]
    } else {
        dec_str(n / 10).push(digit_char(n % 10))
    }
}

/// A longer digit prefix never denotes a smaller number.
pub proof fn lemma_dec_val_take_monotone(s: Seq<char>, i: int, j: int)
    requires
        0 <= i <= j <= s.len(),
    ensures
        dec_val(s.take(i)) <= dec_val(s.take(j)),
    decreases j - i,
{
    if i < j {
        lemma_dec_val_take_monotone(s, i, j - 1);
        let t = s.take(j);
        assert(t.drop_last() =~= s.take(j - 1));
        assert(dec_val(s.take(j - 1)) * 10 >= dec_val(s.take(j - 1))) by (nonlinear_arith);
    }
}

/// How many bytes the UTF-8 encoding of `c` takes.
pub open spec fn char_bytes(c: char) -> nat {
    if (c as u32) < 0x80 {
        1
    } else if (c as u32) < 0x800 {
        2
    } else if (c as u32) < 0x10000 {
        3
    } else {
        4
    }
}

/// How many bytes the UTF-8 encoding of `s` takes.
pub open spec fn bytes_len(s: Seq<char>) -> nat
    decreases s.len(),
{
    if s.len() == 0 {
        0
    } else {
        char_bytes(s[0]) + bytes_len(s.drop_first())
    }
}

/// The UTF-8 byte length of one character.
pub fn char_utf8_len(c: char) -> (n: usize)
    ensures
        n == char_bytes(c),
{
    let v = c as u32;
    if v < 0x80 {
        1
    } else if v < 0x800 {
        2
    } else if v < 0x10000 {
        3
    } else {
        4
    }
}

/// The pattern `pat` occurs in `s` at position `i`.
pub open spec fn is_match(s: Seq<char>, i: int, pat: Seq<char>) -> bool {
    0 <= i && i + pat.len() <= s.len() && s.subrange(i, i + pat.len() as int) == pat
}

/// The first position at or after `i` where the non-empty pattern `pat`
/// occurs in `s`, if any.
pub open spec fn find_from(s: Seq<char>, i: int, pat: Seq<char>) -> Option<int>
    decreases s.len() - i,
{
    if i < 0 || i + pat.len() > s.len() || pat.len() == 0 {
        None
    } else if is_match(s, i, pat) {
        Some(i)
    } else {
        find_from(s, i + 1, pat)
    }
}

pub proof fn lemma_find_from_bounds(s: Seq<char>, i: int, pat: Seq<char>)
    requires
        0 <= i,
        pat.len() >= 1,
    ensures
        match find_from(s, i, pat) {
            Some(j) => i <= j && j + pat.len() <= s.len() && is_match(s, j, pat),
            None => true,
        },
    decreases s.len() - i,
{
    if i + pat.len() <= s.len() && !is_match(s, i, pat) {
        lemma_find_from_bounds(s, i + 1, pat);
    }
}

/// If `pat` occurs at `k` and nowhere in `[i, k)`, the search from `i` finds `k`.
pub proof fn lemma_find_from_first(s: Seq<char>, i: int, pat: Seq<char>, k: int)
    requires
        0 <= i <= k,
        pat.len() >= 1,
        is_match(s, k, pat),
        forall|j: int| i <= j < k ==> !is_match(s, j, pat),
    ensures
        find_from(s, i, pat) == Some(k),
    decreases k - i,
{
    if i < k {
        lemma_find_from_first(s, i + 1, pat, k);
    }
}

/// If `pat` occurs nowhere at or after `i`, the search from `i` fails.
pub proof fn lemma_find_from_none(s: Seq<char>, i: int, pat: Seq<char>)
    requires
        0 <= i,
        pat.len() >= 1,
        forall|j: int| i <= j ==> !is_match(s, j, pat),
    ensures
        find_from(s, i, pat) is None,
    decreases s.len() - i,
{
    if i + pat.len() <= s.len() {
        lemma_find_from_none(s, i + 1, pat);
    }
}

/// Split `s` on every occurrence of the non-empty separator `pat`.
/// An input with no occurrence yields the one-piece sequence `[s]`.
pub open spec fn split_on(s: Seq<char>, pat: Seq<char>) -> Seq<Seq<char>>
    decreases s.len(),
    when pat.len() >= 1
    via split_on_decreases
{
    match find_from(s, 0, pat) {
        None => seq![s],
        Some(i) => seq![s.subrange(0, i)] + split_on(
            s.subrange(i + pat.len() as int, s.len() as int),
            pat,
        ),
    }
}

#[via_fn]
proof fn split_on_decreases(s: Seq<char>, pat: Seq<char>) {
    lemma_find_from_bounds(s, 0, pat);
}

/// Searching within a subrange agrees with searching the whole sequence.
pub proof fn lemma_find_from_shift(s: Seq<char>, a: int, b: int, i: int, pat: Seq<char>)
    requires
        0 <= a <= b <= s.len(),
        0 <= i,
        pat.len() >= 1,
    ensures
        match find_from(s.subrange(a, b), i, pat) {
            None => forall|j: int| a + i <= j && j + pat.len() <= b ==> !is_match(s, j, pat),
            Some(k) => a + k + pat.len() <= b && is_match(s, a + k, pat) && forall|j: int|
                a + i <= j < a + k ==> !is_match(s, j, pat),
        },
    decreases b - a - i,
{
    let sub = s.subrange(a, b);
    if i + pat.len() <= sub.len() {
        lemma_is_match_shift(s, a, b, i, pat);
        if !is_match(sub, i, pat) {
            lemma_find_from_shift(s, a, b, i + 1, pat);
        }
    }
}

/// A match inside a subrange is a match in the whole sequence, and back.
pub proof fn lemma_is_match_shift(s: Seq<char>, a: int, b: int, i: int, pat: Seq<char>)
    requires
        0 <= a <= b <= s.len(),
        0 <= i,
        i + pat.len() <= b - a,
    ensures
        is_match(s.subrange(a, b), i, pat) == is_match(s, a + i, pat),
{
    let sub = s.subrange(a, b);
    let p1 = s.subrange(a + i, a + i + pat.len() as int);
    let p2 = sub.subrange(i, i + pat.len() as int);
    assert forall|m: int| 0 <= m < pat.len() implies p1[m] == p2[m] by {
        assert(p1[m] == s[a + i + m]);
        assert(p2[m] == sub[i + m]);
        assert(sub[i + m] == s[a + i + m]);
    }
    assert(p1 =~= p2);
}

/// Splitting the rest of `s` at the first match `k` peels off one piece.
pub proof fn lemma_split_on_found(s: Seq<char>, cur: int, k: int, pat: Seq<char>)
    requires
        0 <= cur <= k,
        k + pat.len() <= s.len(),
        pat.len() >= 1,
        is_match(s, k, pat),
        forall|j: int| cur <= j < k ==> !is_match(s, j, pat),
    ensures
        split_on(s.subrange(cur, s.len() as int), pat) == seq![s.subrange(cur, k)] + split_on(
            s.subrange(k + pat.len() as int, s.len() as int),
            pat,
        ),
{
    let sub = s.subrange(cur, s.len() as int);
    lemma_is_match_shift(s, cur, s.len() as int, k - cur, pat);
    assert forall|j: int| 0 <= j < k - cur implies !is_match(sub, j, pat) by {
        lemma_is_match_shift(s, cur, s.len() as int, j, pat);
    }
    lemma_find_from_first(sub, 0, pat, k - cur);
    assert(sub.subrange(0, k - cur) =~= s.subrange(cur, k));
    assert(sub.subrange(k - cur + pat.len() as int, sub.len() as int) =~= s.subrange(
        k + pat.len() as int,
        s.len() as int,
    ));
}

/// With no match in the rest of `s`, the split is that one piece.
pub proof fn lemma_split_on_none(s: Seq<char>, cur: int, pat: Seq<char>)
    requires
        0 <= cur <= s.len(),
        pat.len() >= 1,
        forall|j: int| cur <= j ==> !is_match(s, j, pat),
    ensures
        split_on(s.subrange(cur, s.len() as int), pat) == seq![s.subrange(cur, s.len() as int)],
{
    let sub = s.subrange(cur, s.len() as int);
    assert forall|j: int| 0 <= j implies !is_match(sub, j, pat) by {
        if j + pat.len() <= sub.len() {
            lemma_is_match_shift(s, cur, s.len() as int, j, pat);
        }
    }
    lemma_find_from_none(sub, 0, pat);
}

/// The characters of `s`, as a vector.
pub fn chars_of(s: &str) -> (v: Vec<char>)
    ensures
        v@ == s@,
{
    let n = s.unicode_len();
    let mut v: Vec<char> = Vec::new();
    let mut i: usize = 0;
    while i < n
        invariant
            n == s@.len(),
            i <= n,
            v@ =~= s@.take(i as int),
        decreases n - i,
    {
        v.push(s.get_char(i));
        i = i + 1;
    }
    assert(v@ =~= s@);
    v
}

/// Character-for-character string equality.
pub fn str_eq(a: &str, b: &str) -> (r: bool)
    ensures
        r == (a@ == b@),
{
    let na = a.unicode_len();
    let nb = b.unicode_len();
    if na != nb {
        assert(a@ != b@);
        return false;
    }
    let mut i: usize = 0;
    while i < na
        invariant
            na == a@.len() && na == b@.len(),
            i <= na,
            forall|j: int| 0 <= j < i ==> a@[j] == b@[j],
        decreases na - i,
    {
        if a.get_char(i) != b.get_char(i) {
            return false;
        }
        i = i + 1;
    }
    assert(a@ =~= b@);
    true
}

/// `s` begins with `p`.
pub open spec fn starts_with(s: Seq<char>, p: Seq<char>) -> bool {
    s.len() >= p.len() && s.take(p.len() as int) == p
}

/// Whether `s` begins with the prefix `p`.
pub fn str_starts_with(s: &str, p: &str) -> (r: bool)
    ensures
        r == starts_with(s@, p@),
{
    let ns = s.unicode_len();
    let np = p.unicode_len();
    if ns < np {
        return false;
    }
    let mut i: usize = 0;
    while i < np
        invariant
            ns == s@.len() && np == p@.len(),
            np <= ns,
            i <= np,
            forall|j: int| 0 <= j < i ==> s@[j] == p@[j],
        decreases np - i,
    {
        if s.get_char(i) != p.get_char(i) {
            assert(!starts_with(s@, p@)) by {
                assert(s@.take(p@.len() as int)[i as int] == s@[i as int]);
            }
            return false;
        }
        i = i + 1;
    }
    assert(s@.take(p@.len() as int) =~= p@);
    true
}

/// The piece of `s` between character positions `a` and `b`, as an owned string.
pub fn extract(s: &str, a: usize, b: usize) -> (r: String)
    requires
        a <= b <= s@.len(),
    ensures
        r@ == s@.subrange(a as int, b as int),
{
    s.substring_char(a, b).to_owned()
}

/// The first position at or after `from` where `pat` occurs in `v`.
pub fn find_sub(v: &Vec<char>, from: usize, pat: &Vec<char>) -> (r: Option<usize>)
    requires
        from <= v@.len(),
        pat@.len() >= 1,
    ensures
        match r {
            Some(k) => from <= k && k + pat@.len() <= v@.len() && is_match(v@, k as int, pat@)
                && forall|j: int| from <= j < k ==> !is_match(v@, j, pat@),
            None => forall|j: int| from <= j ==> !is_match(v@, j, pat@),
        },
{
    if pat.len() > v.len() {
        assert(forall|j: int| from <= j ==> !is_match(v@, j, pat@));
        return None;
    }
    let vn = v.len();
    let last = vn - pat.len();
    if from > last {
        assert forall|j: int| from <= j implies !is_match(v@, j, pat@) by {
            assert(j + pat@.len() > v@.len());
        }
        return None;
    }
    let mut i: usize = from;
    while i <= last
        invariant
            from <= i <= last + 1,
            pat@.len() >= 1,
            vn == v@.len(),
            last + pat@.len() == v@.len(),
            forall|j: int| from <= j < i ==> !is_match(v@, j, pat@),
        decreases last + 1 - i,
    {
        if match_at(v, i, pat) {
            return Some(i);
        }
        i = i + 1;
    }
    assert forall|j: int| from <= j implies !is_match(v@, j, pat@) by {
        if j > last {
            assert(j + pat@.len() > v@.len());
        }
    }
    None
}

/// Whether `pat` occurs in `v` at position `i`.
fn match_at(v: &Vec<char>, i: usize, pat: &Vec<char>) -> (b: bool)
    requires
        i + pat@.len() <= v@.len(),
    ensures
        b == is_match(v@, i as int, pat@),
{
    let n = pat.len();
    let vn = v.len();
    let mut j: usize = 0;
    while j < n
        invariant
            n == pat@.len(),
            vn == v@.len(),
            i + n <= vn,
            j <= n,
            forall|k: int| 0 <= k < j ==> v@[i + k] == pat@[k],
        decreases n - j,
    {
        if v[i + j] != pat[j] {
            assert(!is_match(v@, i as int, pat@)) by {
                let sub = v@.subrange(i as int, i + pat@.len() as int);
                assert(sub[j as int] == v@[i + j]);
            }
            return false;
        }
        j = j + 1;
    }
    assert(v@.subrange(i as int, i + pat@.len() as int) =~= pat@);
    true
}

/// Split `s` on every occurrence of `pat`, as owned pieces.
pub fn split_string(s: &str, pat: &str) -> (parts: Vec<String>)
    requires
        pat@.len() >= 1,
    ensures
        parts.deep_view() == split_on(s@, pat@),
{
    let v = chars_of(s);
    let p = chars_of(pat);
    let vn = v.len();
    let pn = p.len();
    let mut parts: Vec<String> = Vec::new();
    let mut cur: usize = 0;
    proof {
        assert(s@.subrange(0, s@.len() as int) =~= s@);
        assert(parts.deep_view() + split_on(s@, pat@) =~= split_on(s@, pat@));
    }
    loop
        invariant
            vn == v@.len(),
            pn == p@.len(),
            v@ == s@,
            p@ == pat@,
            pat@.len() >= 1,
            cur <= v@.len(),
            split_on(s@, pat@) == parts.deep_view() + split_on(
                s@.subrange(cur as int, s@.len() as int),
                pat@,
            ),
        decreases v@.len() - cur,
    {
        match find_sub(&v, cur, &p) {
            Some(k) => {
                let ghost before = parts.deep_view();
                let piece = extract(s, cur, k);
                parts.push(piece);
                proof {
                    lemma_split_on_found(s@, cur as int, k as int, pat@);
                    assert(parts.deep_view() =~= before.push(s@.subrange(cur as int, k as int)));
                    assert(parts.deep_view() + split_on(
                        s@.subrange(k + pat@.len() as int, s@.len() as int),
                        pat@,
                    ) =~= split_on(s@, pat@));
                }
                cur = k + p.len();
            },
            None => {
                let ghost before = parts.deep_view();
                let piece = extract(s, cur, s.unicode_len());
                parts.push(piece);
                proof {
                    lemma_split_on_none(s@, cur as int, pat@);
                    assert(parts.deep_view() =~= before.push(
                        s@.subrange(cur as int, s@.len() as int),
                    ));
                    assert(parts.deep_view() =~= split_on(s@, pat@));
                }
                return parts;
            },
        }
    }
}

/// Parse `s` as an unsigned decimal number.
/// Fails on an empty string, a non-digit, or a value above `usize::MAX`.
pub fn parse_dec(s: &str) -> (r: Option<usize>)
    ensures
        match r {
            Some(n) => s@.len() >= 1 && all_digits(s@) && dec_val(s@) == n,
            None => !(s@.len() >= 1 && all_digits(s@) && dec_val(s@) <= usize::MAX),
        },
{
    let v = chars_of(s);
    let n = v.len();
    if n == 0 {
        return None;
    }
    let mut acc: usize = 0;
    let mut i: usize = 0;
    while i < n
        invariant
            n == v@.len(),
            v@ == s@,
            i <= n,
            forall|j: int| 0 <= j < i ==> is_digit(#[trigger] s@[j]),
            acc == dec_val(s@.take(i as int)),
        decreases n - i,
    {
        let c = v[i];
        let cv = c as u32;
        if cv < 48 || cv > 57 {
            assert(!is_digit(s@[i as int]));
            return None;
        }
        let d = (cv - 48) as usize;
        assert(is_digit(s@[i as int]));
        assert(d == digit_val(s@[i as int]));
        assert(s@.take(i + 1).drop_last() =~= s@.take(i as int));
        assert(s@.take(i + 1).last() == s@[i as int]);
        let step = acc.checked_mul(10);
        match step {
            Some(m) => {
                match m.checked_add(d) {
                    Some(a) => {
                        acc = a;
                    },
                    None => {
                        proof {
                            lemma_dec_val_take_monotone(s@, i + 1, s@.len() as int);
                            assert(s@.take(s@.len() as int) =~= s@);
                        }
                        return None;
                    },
                }
            },
            None => {
                proof {
                    assert(dec_val(s@.take(i + 1)) > usize::MAX);
                    lemma_dec_val_take_monotone(s@, i + 1, s@.len() as int);
                    assert(s@.take(s@.len() as int) =~= s@);
                }
                return None;
            },
        }
        i = i + 1;
    }
    assert(s@.take(n as int) =~= s@);
    Some(acc)
}

/// Parse `s` as a decimal number that must fit in a `u32`.
pub fn parse_dec_u32(s: &str) -> (r: Option<u32>)
    ensures
        match r {
            Some(n) => s@.len() >= 1 && all_digits(s@) && dec_val(s@) == n,
            None => !(s@.len() >= 1 && all_digits(s@) && dec_val(s@) <= u32::MAX),
        },
{
    match parse_dec(s) {
        Some(n) => {
            if n <= u32::MAX as usize {
                Some(n as u32)
            } else {
                None
            }
        },
        None => None,
    }
}

/// The one-character string for the digit value `d`.
fn digit_str(d: u64) -> (r: &'static str)
    requires
        d < 10,
    ensures
        r@ == seq![digit_char(d as nat)],
{
    let r = if d == 0 { "0" }
    else if d == 1 { "1" }
    else if d == 2 { "2" }
    else if d == 3 { "3" }
    else if d == 4 { "4" }
    else if d == 5 { "5" }
    else if d == 6 { "6" }
    else if d == 7 { "7" }
    else if d == 8 { "8" }
    else { "9" };
    proof {
        reveal_strlit("0");
        reveal_strlit("1");
        reveal_strlit("2");
        reveal_strlit("3");
        reveal_strlit("4");
        reveal_strlit("5");
        reveal_strlit("6");
        reveal_strlit("7");
        reveal_strlit("8");
        reveal_strlit("9");
        assert(r@ =~= seq![digit_char(d as nat)]);
    }
    r
}

/// Append the decimal digits of `n` to `out`.
pub fn append_dec(out: &mut String, n: u64)
    ensures
        final(out)@ == old(out)@ + dec_str(n as nat),
    decreases n,
{
    if n >= 10 {
        append_dec(out, n / 10);
        let ghost mid = out@;
        out.append(digit_str(n % 10));
        proof {
            assert(out@ =~= old(out)@ + dec_str(n as nat)) by {
                assert(mid == old(out)@ + dec_str(n as nat / 10));
                assert(dec_str(n as nat) == dec_str(n as nat / 10).push(
                    digit_char(n as nat % 10),
                ));
            }
        }
    } else {
        out.append(digit_str(n));
        proof {
            assert(out@ =~= old(out)@ + dec_str(n as nat));
        }
    }
}

/// The decimal digit string of `n`, as an owned string.
pub fn dec_string(n: u64) -> (r: String)
    ensures
        r@ == dec_str(n as nat),
{
    let mut out = String::new();
    append_dec(&mut out, n);
    proof {
        assert(out@ =~= dec_str(n as nat));
    }
    out
}

/// Wherever the search from `i` finds `k`, nothing in `[i, k)` matches.
pub proof fn lemma_find_from_is_first(s: Seq<char>, i: int, pat: Seq<char>, k: int)
    requires
        0 <= i,
        find_from(s, i, pat) == Some(k),
    ensures
        i <= k,
        is_match(s, k, pat),
        forall|j: int| i <= j < k ==> !is_match(s, j, pat),
    decreases s.len() - i,
{
    if !is_match(s, i, pat) {
        lemma_find_from_is_first(s, i + 1, pat, k);
    }
}

/// Splitting a text whose first pattern occurrence follows `a` peels `a` off.
pub proof fn lemma_split_concat(a: Seq<char>, b: Seq<char>, pat: Seq<char>)
    requires
        pat.len() >= 1,
        forall|i: int| 0 <= i < a.len() ==> a[i] != pat[0],
    ensures
        split_on(a + pat + b, pat) == seq![a] + split_on(b, pat),
{
    let s = a + pat + b;
    assert(is_match(s, a.len() as int, pat)) by {
        assert forall|m: int|
            0 <= m < pat.len() implies s.subrange(
            a.len() as int,
            a.len() + pat.len() as int,
        )[m] == pat[m] by {
            assert(s[a.len() + m] == pat[m]);
        }
        assert(s.subrange(a.len() as int, a.len() + pat.len() as int) =~= pat);
    }
    assert forall|j: int| 0 <= j < a.len() implies !is_match(s, j, pat) by {
        if is_match(s, j, pat) {
            assert(s.subrange(j, j + pat.len() as int)[0] == pat[0]);
            assert(s[j] == a[j]);
        }
    }
    lemma_find_from_first(s, 0, pat, a.len() as int);
    assert(s.subrange(0, a.len() as int) =~= a);
    assert(s.subrange(a.len() + pat.len() as int, s.len() as int) =~= b);
}

} // verus!
