//! The plain-text `.irb` export encoding: a `key=value` header block up to
//! a `[Data]` marker, then a whitespace-delimited numeric matrix.
//!
//! The parsers work on raw line bytes, so no line can fail to decode; a
//! line is interpreted only where its bytes match the expected shapes.
//! Samples are kept as their normalized numeric tokens.

use vstd::prelude::*;

use crate::utils::latin1_string;
use crate::Error;

verus! {

// ----------------------------------------------------------------------
// Byte classes.
// ----------------------------------------------------------------------
/// The whitespace bytes: space, tab, line feed, vertical tab, form feed,
/// carriage return (the ASCII part of the usual whitespace class).
pub open spec fn is_space(b: u8) -> bool {
    b == 32 || 9 <= b <= 13
}

/// The bytes that separate samples on a data row: whitespace, and `;`,
/// which is normalized to a space before splitting.
pub open spec fn is_sep(b: u8) -> bool {
    is_space(b) || b == 59
}

/// A decimal digit byte.
pub open spec fn is_digit(b: u8) -> bool {
    48 <= b <= 57
}

/// Decides `is_sep`.
fn sep_byte(b: u8) -> (r: bool)
    ensures
        r == is_sep(b),
{
    b == 59 || b == 32 || (9 <= b && b <= 13)
}

// ----------------------------------------------------------------------
// Splitting a row into sample tokens.
// ----------------------------------------------------------------------
/// The sample tokens of a data row: the maximal runs of non-separator
/// bytes, in order.
pub open spec fn tokens_of(s: Seq<u8>) -> Seq<Seq<u8>>
    decreases s.len(),
{
    if s.len() == 0 {
        Seq::<Seq<u8>>::empty()
    } else {
        let ts = tokens_of(s.drop_last());
        let b = s.last();
        if is_sep(b) {
            ts
        } else if s.len() == 1 || is_sep(s[s.len() - 2]) {
            ts.push(seq![b])
        } else {
            ts.update(ts.len() - 1, ts.last().push(b))
        }
    }
}

/// A row whose last byte is no separator ends inside a token.
proof fn lemma_tokens_nonempty(s: Seq<u8>)
    requires
        s.len() > 0,
        !is_sep(s.last()),
    ensures
        tokens_of(s).len() > 0,
    decreases s.len(),
{
    if s.len() == 1 || is_sep(s[s.len() - 2]) {
    } else {
        lemma_tokens_nonempty(s.drop_last());
    }
}

/// Splits a row into its sample tokens.
fn tokenize(line: &Vec<u8>) -> (r: Vec<Vec<u8>>)
    ensures
        r.deep_view() == tokens_of(line@),
{
    let n = line.len();
    let mut toks: Vec<Vec<u8>> = Vec::new();
    let mut i: usize = 0;
    while i < n
        invariant
            n == line@.len(),
            i <= n,
            toks.deep_view() == tokens_of(line@.take(i as int)),
        decreases n - i,
    {
        let ghost prefix = line@.take(i as int);
        let ghost extended = line@.take(i + 1);
        proof {
            assert(extended.drop_last() =~= prefix);
            assert(extended.last() == line@[i as int]);
        }
        let b = line[i];
        if sep_byte(b) {
            // a separator closes the current token and adds nothing
        } else if i == 0 || sep_byte(*line.get(i - 1).unwrap()) {
            let mut t: Vec<u8> = Vec::new();
            t.push(b);
            toks.push(t);
            proof {
                assert(toks.deep_view() =~~= tokens_of(extended));
            }
        } else {
            proof {
                lemma_tokens_nonempty(prefix);
            }
            let mut t = toks.pop().unwrap();
            t.push(b);
            toks.push(t);
            proof {
                assert(toks.deep_view() =~~= tokens_of(extended));
            }
        }
        i = i + 1;
    }
    proof {
        assert(line@.take(n as int) =~= line@);
    }
    toks
}

// ----------------------------------------------------------------------
// The numeric token grammar.
// ----------------------------------------------------------------------
/// A token after decimal-comma normalization: every `,` becomes `.`.
pub open spec fn normalize_token(t: Seq<u8>) -> Seq<u8> {
    Seq::new(t.len(), |i: int| if t[i] == 44 { 46u8 } else { t[i] })
}

/// Every byte of `s` is a decimal digit.
pub open spec fn all_digits(s: Seq<u8>) -> bool {
    forall|i: int| 0 <= i < s.len() ==> is_digit(#[trigger] s[i])
}

/// `s` with one leading `+` or `-` removed, if it carries one.
pub open spec fn strip_sign(s: Seq<u8>) -> Seq<u8> {
    if s.len() > 0 && (s[0] == 43 || s[0] == 45) {
        s.skip(1)
    } else {
        s
    }
}

/// A significand: digits with at most one decimal point and at least one
/// digit or point-adjacent digit (`12`, `12.`, `12.5`, `.5`).
pub open spec fn is_significand(s: Seq<u8>) -> bool {
    ||| (s.len() > 0 && all_digits(s))
    ||| (exists|k: int|
        0 <= k < s.len() && s[k] == 46 && s.len() > 1 && all_digits(s.take(k)) && all_digits(
            s.skip(k + 1),
        ))
}

/// An exponent body, after the `e`: an optional sign, then digits.
pub open spec fn is_exponent(s: Seq<u8>) -> bool {
    strip_sign(s).len() > 0 && all_digits(strip_sign(s))
}

/// An unsigned numeric body: a significand, optionally followed by `e` or
/// `E` and an exponent.
pub open spec fn is_unsigned_numeric(s: Seq<u8>) -> bool {
    ||| is_significand(s)
    ||| (exists|k: int|
        0 <= k < s.len() && (s[k] == 101 || s[k] == 69) && is_significand(s.take(k)) && is_exponent(
            s.skip(k + 1),
        ))
}

/// A numeric sample token, after normalization: an optional sign, then an
/// unsigned numeric body.  This is the finite-number grammar of the usual
/// decimal float syntax; non-finite spellings are not data this format
/// carries and are rejected.
pub open spec fn is_numeric_token(t: Seq<u8>) -> bool {
    is_unsigned_numeric(strip_sign(t))
}

/// A significand holds only digits and points, so never an `e` or a sign.
proof fn lemma_significand_bytes(s: Seq<u8>)
    requires
        is_significand(s),
    ensures
        forall|i: int| 0 <= i < s.len() ==> (is_digit(#[trigger] s[i]) || s[i] == 46),
{
    if s.len() > 0 && all_digits(s) {
    } else {
        let k = choose|k: int|
            0 <= k < s.len() && s[k] == 46 && s.len() > 1 && all_digits(s.take(k)) && all_digits(
                s.skip(k + 1),
            );
        assert forall|i: int| 0 <= i < s.len() implies (is_digit(s[i]) || s[i] == 46) by {
            if i < k {
                assert(s[i] == s.take(k)[i]);
            } else if i > k {
                assert(s[i] == s.skip(k + 1)[i - k - 1]);
            }
        }
    }
}

/// Decides whether `t[from..to)` holds only decimal digits.
fn check_digits(t: &Vec<u8>, from: usize, to: usize) -> (r: bool)
    requires
        from <= to <= t@.len(),
    ensures
        r == all_digits(t@.subrange(from as int, to as int)),
{
    let ghost sub = t@.subrange(from as int, to as int);
    let mut i: usize = from;
    while i < to
        invariant
            from <= i <= to <= t@.len(),
            sub == t@.subrange(from as int, to as int),
            forall|j: int| from <= j < i ==> is_digit(#[trigger] t@[j]),
        decreases to - i,
    {
        let b = t[i];
        if !(48 <= b && b <= 57) {
            assert(sub[i - from] == t@[i as int]);
            return false;
        }
        i = i + 1;
    }
    assert forall|j: int| 0 <= j < sub.len() implies is_digit(sub[j]) by {
        assert(sub[j] == t@[from + j]);
    }
    true
}

/// Finds the first byte equal to `a` or `b` in `t[from..to)`.
fn find_in_range(t: &Vec<u8>, from: usize, to: usize, a: u8, b: u8) -> (r: Option<usize>)
    requires
        from <= to <= t@.len(),
    ensures
        r matches Some(i) ==> (from <= i < to && (t@[i as int] == a || t@[i as int] == b) && forall|
            j: int,
        |
            from <= j < i ==> (t@[j] != a && t@[j] != b)),
        r is None ==> forall|j: int| from <= j < to ==> (t@[j] != a && t@[j] != b),
{
    let mut i: usize = from;
    while i < to
        invariant
            from <= i <= to <= t@.len(),
            forall|j: int| from <= j < i ==> (t@[j] != a && t@[j] != b),
        decreases to - i,
    {
        let c = t[i];
        if c == a || c == b {
            return Some(i);
        }
        i = i + 1;
    }
    None
}

/// Decides whether `t[from..to)` is a significand.
fn check_significand(t: &Vec<u8>, from: usize, to: usize) -> (r: bool)
    requires
        from <= to <= t@.len(),
    ensures
        r == is_significand(t@.subrange(from as int, to as int)),
{
    let ghost sub = t@.subrange(from as int, to as int);
    match find_in_range(t, from, to, 46, 46) {
        None => {
            let r = to > from && check_digits(t, from, to);
            proof {
                if !r && is_significand(sub) {
                    // without a point the second disjunct would need one
                    if !(sub.len() > 0 && all_digits(sub)) {
                        let k = choose|k: int|
                            0 <= k < sub.len() && sub[k] == 46 && sub.len() > 1 && all_digits(
                                sub.take(k),
                            ) && all_digits(sub.skip(k + 1));
                        assert(t@[from + k] == 46);
                    }
                }
            }
            r
        },
        Some(d) => {
            // the first point is the only split that can work: any later
            // point would leave this one inside an all-digit stretch
            let long_enough = to - from > 1;
            let r = long_enough && check_digits(t, from, d) && check_digits(t, d + 1, to);
            proof {
                let k = d - from;
                assert(sub[k] == t@[d as int]);
                if r {
                    assert(sub.take(k) =~= t@.subrange(from as int, d as int));
                    assert(sub.skip(k + 1) =~= t@.subrange(d + 1, to as int));
                    assert(is_significand(sub));
                } else if is_significand(sub) {
                    assert(!(sub.len() > 0 && all_digits(sub))) by {
                        assert(sub[k] == 46 && !is_digit(46));
                    }
                    let k2 = choose|k2: int|
                        0 <= k2 < sub.len() && sub[k2] == 46 && sub.len() > 1 && all_digits(
                            sub.take(k2),
                        ) && all_digits(sub.skip(k2 + 1));
                    if k2 < k {
                        assert(t@[from + k2] == 46);
                    } else if k2 > k {
                        assert(sub.take(k2)[k] == 46);
                    } else {
                        assert(sub.take(k) =~= t@.subrange(from as int, d as int));
                        assert(sub.skip(k + 1) =~= t@.subrange(d + 1, to as int));
                    }
                }
            }
            r
        },
    }
}

/// Decides whether `t[from..to)` is an exponent body.
fn check_exponent(t: &Vec<u8>, from: usize, to: usize) -> (r: bool)
    requires
        from <= to <= t@.len(),
    ensures
        r == is_exponent(t@.subrange(from as int, to as int)),
{
    let ghost sub = t@.subrange(from as int, to as int);
    let start = if from < to && (t[from] == 43 || t[from] == 45) {
        from + 1
    } else {
        from
    };
    proof {
        assert(strip_sign(sub) =~= t@.subrange(start as int, to as int));
    }
    to > start && check_digits(t, start, to)
}

/// Decides whether a whole (already normalized) token is numeric.
fn check_numeric(t: &Vec<u8>) -> (r: bool)
    ensures
        r == is_numeric_token(t@),
{
    let n = t.len();
    let start = if n > 0 && (t[0] == 43 || t[0] == 45) {
        1
    } else {
        0
    };
    let ghost body = strip_sign(t@);
    proof {
        assert(body =~= t@.subrange(start as int, n as int));
    }
    match find_in_range(t, start, n, 101, 69) {
        None => {
            let r = check_significand(t, start, n);
            proof {
                if !r && is_unsigned_numeric(body) {
                    let k = choose|k: int|
                        0 <= k < body.len() && (body[k] == 101 || body[k] == 69) && is_significand(
                            body.take(k),
                        ) && is_exponent(body.skip(k + 1));
                    assert(t@[start + k] == body[k]);
                }
            }
            r
        },
        Some(e) => {
            let r = check_significand(t, start, e) && check_exponent(t, e + 1, n);
            proof {
                let k = e - start;
                assert(body[k] == t@[e as int]);
                if r {
                    assert(body.take(k) =~= t@.subrange(start as int, e as int));
                    assert(body.skip(k + 1) =~= t@.subrange(e + 1, n as int));
                    assert(is_unsigned_numeric(body));
                } else if is_unsigned_numeric(body) {
                    if is_significand(body) {
                        lemma_significand_bytes(body);
                        assert(is_digit(body[k]) || body[k] == 46);
                        assert(false);
                    } else {
                        let k2 = choose|k2: int|
                            0 <= k2 < body.len() && (body[k2] == 101 || body[k2] == 69)
                                && is_significand(body.take(k2)) && is_exponent(body.skip(k2 + 1));
                        if k2 < k {
                            assert(t@[start + k2] == body[k2]);
                        } else if k2 > k {
                            lemma_significand_bytes(body.take(k2));
                            assert(body.take(k2)[k] == body[k]);
                            assert(false);
                        } else {
                            assert(body.take(k) =~= t@.subrange(start as int, e as int));
                            assert(body.skip(k + 1) =~= t@.subrange(e + 1, n as int));
                        }
                    }
                }
            }
            r
        },
    }
}

// ----------------------------------------------------------------------
// First occurrence of a byte, and whitespace trimming.
// ----------------------------------------------------------------------
/// Index of the first `b` in `s`, or `s.len()` if there is none.
pub open spec fn first_index(s: Seq<u8>, b: u8) -> int
    decreases s.len(),
{
    if s.len() == 0 {
        0
    } else if s[0] == b {
        0
    } else {
        1 + first_index(s.subrange(1, s.len() as int), b)
    }
}

/// `first_index` points at the first occurrence: nothing before it is `b`,
/// and it holds `b` unless `s` holds none at all.
proof fn lemma_first_index(s: Seq<u8>, b: u8)
    ensures
        0 <= first_index(s, b) <= s.len(),
        forall|j: int| 0 <= j < first_index(s, b) ==> s[j] != b,
        first_index(s, b) < s.len() ==> s[first_index(s, b)] == b,
    decreases s.len(),
{
    if s.len() == 0 {
    } else if s[0] == b {
    } else {
        let t = s.subrange(1, s.len() as int);
        lemma_first_index(t, b);
        assert forall|j: int| 0 <= j < first_index(s, b) implies s[j] != b by {
            if j > 0 {
                assert(s[j] == t[j - 1]);
            }
        }
        if first_index(s, b) < s.len() {
            assert(s[first_index(s, b)] == t[first_index(s, b) - 1]);
        }
    }
}

/// A position that sees `b` first is `first_index`.
proof fn lemma_first_index_is(s: Seq<u8>, b: u8, p: int)
    requires
        0 <= p <= s.len(),
        forall|j: int| 0 <= j < p ==> s[j] != b,
        p < s.len() ==> s[p] == b,
    ensures
        first_index(s, b) == p,
{
    lemma_first_index(s, b);
    let f = first_index(s, b);
    if f < p {
        assert(s[f] != b);
        assert(s[f] == b);
    } else if p < f {
        assert(s[p] != b);
        assert(s[p] == b);
    }
}

/// `s` without its leading whitespace.
pub open spec fn trim_start(s: Seq<u8>) -> Seq<u8>
    decreases s.len(),
{
    if s.len() > 0 && is_space(s[0]) {
        trim_start(s.subrange(1, s.len() as int))
    } else {
        s
    }
}

/// `s` without its trailing whitespace.
pub open spec fn trim_end(s: Seq<u8>) -> Seq<u8>
    decreases s.len(),
{
    if s.len() > 0 && is_space(s.last()) {
        trim_end(s.drop_last())
    } else {
        s
    }
}

/// `s` without leading and trailing whitespace.
pub open spec fn trim(s: Seq<u8>) -> Seq<u8> {
    trim_end(trim_start(s))
}

/// Dropping a run of leading spaces is what `trim_start` does.
proof fn lemma_trim_start(s: Seq<u8>, a: int)
    requires
        0 <= a <= s.len(),
        forall|j: int| 0 <= j < a ==> is_space(#[trigger] s[j]),
        a < s.len() ==> !is_space(s[a]),
    ensures
        trim_start(s) == s.subrange(a, s.len() as int),
    decreases a,
{
    if a == 0 {
        assert(s.subrange(0, s.len() as int) =~= s);
    } else {
        let t = s.subrange(1, s.len() as int);
        lemma_trim_start(t, a - 1);
        assert(t.subrange(a - 1, t.len() as int) =~= s.subrange(a, s.len() as int));
    }
}

/// Dropping a run of trailing spaces is what `trim_end` does.
proof fn lemma_trim_end(s: Seq<u8>, b: int)
    requires
        0 <= b <= s.len(),
        forall|j: int| b <= j < s.len() ==> is_space(#[trigger] s[j]),
        b > 0 ==> !is_space(s[b - 1]),
    ensures
        trim_end(s) == s.subrange(0, b),
    decreases s.len() - b,
{
    if b == s.len() {
        assert(s.subrange(0, b) =~= s);
    } else {
        let t = s.drop_last();
        lemma_trim_end(t, b);
        assert(t.subrange(0, b) =~= s.subrange(0, b));
    }
}

/// Narrows `[lo, hi)` to the whitespace-trimmed part of the segment.
fn trim_range(line: &Vec<u8>, lo: usize, hi: usize) -> (r: (usize, usize))
    requires
        lo <= hi <= line@.len(),
    ensures
        lo <= r.0 <= r.1 <= hi,
        line@.subrange(r.0 as int, r.1 as int) == trim(line@.subrange(lo as int, hi as int)),
{
    let mut a = lo;
    while a < hi && sep_byte(line[a]) && line[a] != 59
        invariant
            lo <= a <= hi <= line@.len(),
            forall|j: int| lo <= j < a ==> is_space(#[trigger] line@[j]),
        decreases hi - a,
    {
        a = a + 1;
    }
    let mut b = hi;
    while b > a && sep_byte(line[b - 1]) && line[b - 1] != 59
        invariant
            lo <= a <= b <= hi <= line@.len(),
            a < b ==> !is_space(line@[a as int]),
            forall|j: int| b <= j < hi ==> is_space(#[trigger] line@[j]),
        decreases b - a,
    {
        b = b - 1;
    }
    proof {
        let s = line@.subrange(lo as int, hi as int);
        assert forall|j: int| 0 <= j < a - lo implies is_space(#[trigger] s[j]) by {
            assert(s[j] == line@[lo + j]);
        }
        assert(a - lo < s.len() ==> !is_space(s[a - lo])) by {
            if a < hi {
                assert(s[a - lo] == line@[a as int]);
            }
        }
        lemma_trim_start(s, a - lo);
        let s2 = s.subrange(a - lo, s.len() as int);
        assert(s2 =~= line@.subrange(a as int, hi as int));
        assert forall|j: int| b - a <= j < s2.len() implies is_space(#[trigger] s2[j]) by {
            assert(s2[j] == line@[a + j]);
        }
        assert(b - a > 0 ==> !is_space(s2[b - a - 1])) by {
            if b > a {
                assert(s2[b - a - 1] == line@[b - 1]);
            }
        }
        lemma_trim_end(s2, b - a);
        assert(s2.subrange(0, b - a) =~= line@.subrange(a as int, b as int));
    }
    (a, b)
}

// ----------------------------------------------------------------------
// Unsigned integer tokens (header declaration values).
// ----------------------------------------------------------------------
/// The number that a run of digit bytes spells in base ten.
pub open spec fn uint_value(s: Seq<u8>) -> int
    decreases s.len(),
{
    if s.len() == 0 {
        0
    } else {
        uint_value(s.drop_last()) * 10 + (s.last() - 48)
    }
}

/// An unsigned integer token: an optional `+`, then one or more digits
/// (the grammar of the usual unsigned decimal parse; `-` is rejected).
pub open spec fn is_uint_token(t: Seq<u8>) -> bool {
    let u = if t.len() > 0 && t[0] == 43 {
        t.subrange(1, t.len() as int)
    } else {
        t
    };
    u.len() > 0 && all_digits(u)
}

/// The value an unsigned integer token spells.
pub open spec fn uint_token_value(t: Seq<u8>) -> int {
    if t.len() > 0 && t[0] == 43 {
        uint_value(t.subrange(1, t.len() as int))
    } else {
        uint_value(t)
    }
}

/// A digit run spells a non-negative number.
proof fn lemma_uint_value_nonneg(s: Seq<u8>)
    requires
        all_digits(s),
    ensures
        uint_value(s) >= 0,
    decreases s.len(),
{
    if s.len() > 0 {
        assert(all_digits(s.drop_last())) by {
            assert(forall|i: int| 0 <= i < s.len() - 1 ==> s.drop_last()[i] == s[i]);
        }
        lemma_uint_value_nonneg(s.drop_last());
    }
}

/// A digit run spells at least what any of its prefixes spells.
proof fn lemma_uint_value_prefix(s: Seq<u8>, j: int)
    requires
        all_digits(s),
        0 <= j <= s.len(),
    ensures
        uint_value(s.subrange(0, j)) <= uint_value(s),
    decreases s.len() - j,
{
    if j == s.len() {
        assert(s.subrange(0, j) =~= s);
    } else {
        let t = s.subrange(0, s.len() - 1);
        assert(t =~= s.drop_last());
        assert(all_digits(t)) by {
            assert(forall|i: int| 0 <= i < t.len() ==> t[i] == s[i]);
        }
        lemma_uint_value_prefix(t, j);
        assert(t.subrange(0, j) =~= s.subrange(0, j));
        lemma_uint_value_nonneg(t);
    }
}

/// Parses `t[from..to)` as an unsigned decimal integer.  Any failure (no
/// digits, a stray byte, or a value past `usize::MAX`) is `ParseNumeric`
/// carrying the segment.
fn parse_usize_range(t: &Vec<u8>, from: usize, to: usize) -> (r: Result<usize, Error>)
    requires
        from <= to <= t@.len(),
    ensures
        ({
            let seg = t@.subrange(from as int, to as int);
            &&& (is_uint_token(seg) && uint_token_value(seg) <= usize::MAX) ==> (r matches Ok(v)
                && v == uint_token_value(seg))
            &&& !(is_uint_token(seg) && uint_token_value(seg) <= usize::MAX) ==> (r matches Err(e)
                && e matches Error::ParseNumeric(b) && b@ == seg)
        }),
{
    let ghost seg = t@.subrange(from as int, to as int);
    let start = if from < to && t[from] == 43 {
        from + 1
    } else {
        from
    };
    let ghost digits = t@.subrange(start as int, to as int);
    proof {
        if from < to && t@[from as int] == 43 {
            assert(seg[0] == 43);
            assert(digits =~= seg.subrange(1, seg.len() as int));
        } else {
            assert(digits =~= seg);
        }
        assert(is_uint_token(seg) == (digits.len() > 0 && all_digits(digits)));
        assert(uint_token_value(seg) == uint_value(digits));
    }
    if start >= to || !check_digits(t, start, to) {
        let raw = vstd::slice::slice_to_vec(
            vstd::slice::slice_subrange(t.as_slice(), from, to),
        );
        return Err(Error::ParseNumeric(raw));
    }
    let mut v: u64 = 0;
    let mut i = start;
    while i < to
        invariant
            from <= start <= i <= to <= t@.len(),
            seg == t@.subrange(from as int, to as int),
            digits == t@.subrange(start as int, to as int),
            digits.len() > 0,
            all_digits(digits),
            is_uint_token(seg),
            uint_token_value(seg) == uint_value(digits),
            v == uint_value(t@.subrange(start as int, i as int)),
        decreases to - i,
    {
        let ghost sofar = t@.subrange(start as int, i as int);
        let ghost next = t@.subrange(start as int, i + 1);
        proof {
            assert(next.drop_last() =~= sofar);
            assert(next.last() == t@[i as int]);
            assert(t@[i as int] == digits[i - start]);
        }
        let d = t[i] - 48;
        if v > 1844674407370955161u64 || (v == 1844674407370955161u64 && d > 5) {
            proof {
                assert(uint_value(next) > u64::MAX);
                assert forall|j: int| 0 <= j < next.len() implies is_digit(#[trigger] next[j]) by {
                    assert(next[j] == digits[j]);
                }
                lemma_uint_value_prefix(digits, i + 1 - start);
                assert(next =~= digits.subrange(0, i + 1 - start));
                assert(uint_value(digits) > u64::MAX >= usize::MAX);
            }
            let raw = vstd::slice::slice_to_vec(
                vstd::slice::slice_subrange(t.as_slice(), from, to),
            );
            return Err(Error::ParseNumeric(raw));
        }
        v = v * 10 + (d as u64);
        i = i + 1;
    }
    if v > (usize::MAX as u64) {
        let raw = vstd::slice::slice_to_vec(
            vstd::slice::slice_subrange(t.as_slice(), from, to),
        );
        return Err(Error::ParseNumeric(raw));
    }
    Ok(v as usize)
}

// ----------------------------------------------------------------------
// Header lines.
// ----------------------------------------------------------------------
/// `p` is a prefix of `s`.
pub open spec fn starts_with(s: Seq<u8>, p: Seq<u8>) -> bool {
    s.len() >= p.len() && s.take(p.len() as int) == p
}

/// The bytes of `ImageWidth`.
pub open spec fn width_key() -> Seq<u8> {
    seq![73u8, 109, 97, 103, 101, 87, 105, 100, 116, 104]
}

/// The bytes of `ImageHeight`.
pub open spec fn height_key() -> Seq<u8> {
    seq![73u8, 109, 97, 103, 101, 72, 101, 105, 103, 104, 116]
}

/// The bytes of `[Data]`, the line that ends the header.
pub open spec fn data_marker() -> Seq<u8> {
    seq![91u8, 68, 97, 116, 97, 93]
}

/// Decides whether the line starts with `ImageWidth`.
fn is_width_line(line: &Vec<u8>) -> (r: bool)
    ensures
        r == starts_with(line@, width_key()),
{
    if line.len() < 10 {
        return false;
    }
    let r = line[0] == 73 && line[1] == 109 && line[2] == 97 && line[3] == 103 && line[4] == 101
        && line[5] == 87 && line[6] == 105 && line[7] == 100 && line[8] == 116 && line[9] == 104;
    proof {
        if r {
            assert(line@.take(10) =~= width_key());
        } else if starts_with(line@, width_key()) {
            assert forall|j: int| 0 <= j < 10 implies line@[j] == width_key()[j] by {
                assert(line@.take(10)[j] == width_key()[j]);
            }
        }
    }
    r
}

/// Decides whether the line starts with `ImageHeight`.
fn is_height_line(line: &Vec<u8>) -> (r: bool)
    ensures
        r == starts_with(line@, height_key()),
{
    if line.len() < 11 {
        return false;
    }
    let r = line[0] == 73 && line[1] == 109 && line[2] == 97 && line[3] == 103 && line[4] == 101
        && line[5] == 72 && line[6] == 101 && line[7] == 105 && line[8] == 103 && line[9] == 104
        && line[10] == 116;
    proof {
        if r {
            assert(line@.take(11) =~= height_key());
        } else if starts_with(line@, height_key()) {
            assert forall|j: int| 0 <= j < 11 implies line@[j] == height_key()[j] by {
                assert(line@.take(11)[j] == height_key()[j]);
            }
        }
    }
    r
}

/// Decides whether the line is exactly the `[Data]` marker.
fn is_data_line(line: &Vec<u8>) -> (r: bool)
    ensures
        r == (line@ == data_marker()),
{
    if line.len() != 6 {
        return false;
    }
    let r = line[0] == 91 && line[1] == 68 && line[2] == 97 && line[3] == 116 && line[4] == 97
        && line[5] == 93;
    proof {
        if r {
            assert(line@ =~= data_marker());
        }
    }
    r
}

// ----------------------------------------------------------------------
// Declaration values.
// ----------------------------------------------------------------------
/// A line holds an `=` sign.
pub open spec fn has_eq(s: Seq<u8>) -> bool {
    first_index(s, 61) < s.len()
}

/// The value of a declaration line: the bytes after the first `=` up to
/// the next `=` or the line end, without surrounding whitespace.
pub open spec fn value_segment(s: Seq<u8>) -> Seq<u8> {
    let a = first_index(s, 61) + 1;
    let b = a + first_index(s.subrange(a, s.len() as int), 61);
    trim(s.subrange(a, b))
}

/// What reading the value of one declaration line yields.
pub enum ValueScan {
    /// The line holds no `=` sign.
    NoEquals,
    /// The value is not an unsigned integer that fits (the trimmed bytes).
    BadNumber(Seq<u8>),
    /// The declared value.
    Value(int),
}

/// Reads one declaration line, as a whole.
pub open spec fn scan_value(line: Seq<u8>) -> ValueScan {
    if !has_eq(line) {
        ValueScan::NoEquals
    } else {
        let seg = value_segment(line);
        if is_uint_token(seg) && uint_token_value(seg) <= usize::MAX {
            ValueScan::Value(uint_token_value(seg))
        } else {
            ValueScan::BadNumber(seg)
        }
    }
}

/// Reads the value of a declaration line: the part after the first `=`
/// (up to a second `=`, as a split would give), trimmed and parsed as an
/// unsigned integer.  A line without `=` is `MissingEqualsSign`.
fn parse_value(line: &Vec<u8>) -> (r: Result<usize, Error>)
    ensures
        scan_value(line@) is NoEquals ==> (r matches Err(e) && e matches Error::MissingEqualsSign(
            b,
        ) && b@ == line@),
        scan_value(line@) matches ValueScan::BadNumber(seg) ==> (r matches Err(e) && e
            matches Error::ParseNumeric(b) && b@ == seg),
        scan_value(line@) matches ValueScan::Value(v) ==> (r matches Ok(x) && x == v),
{
    let n = line.len();
    match find_in_range(line, 0, n, 61, 61) {
        None => {
            proof {
                lemma_first_index_is(line@, 61, n as int);
            }
            Err(Error::MissingEqualsSign(line.clone()))
        },
        Some(p) => {
            proof {
                lemma_first_index_is(line@, 61, p as int);
            }
            let a = p + 1;
            let b = match find_in_range(line, a, n, 61, 61) {
                None => n,
                Some(q) => q,
            };
            let ghost rest = line@.subrange(a as int, n as int);
            proof {
                assert forall|j: int| 0 <= j < b - a implies rest[j] != 61 by {
                    assert(rest[j] == line@[a + j]);
                }
                if b < n {
                    assert(rest[b - a] == line@[b as int]);
                }
                lemma_first_index_is(rest, 61, b - a);
            }
            let (lo, hi) = trim_range(line, a, b);
            parse_usize_range(line, lo, hi)
        },
    }
}

// ----------------------------------------------------------------------
// The header scan.
// ----------------------------------------------------------------------
/// What scanning a text header yields.
pub enum HeaderScan {
    /// Width and height were both declared; data begin at line `next`.
    Found { width: int, height: int, next: int },
    /// The declaration at line `line` holds no `=` sign.
    NoEquals { line: int },
    /// The declaration at line `line` does not carry an unsigned integer.
    BadNumber { line: int },
    /// No width declaration was seen (checked first, before the height).
    NoWidth,
    /// A width was declared but no height.
    NoHeight,
}

/// The header scan from line `i` on, with the declarations seen so far:
/// lines are taken in order; a width or height declaration (re)sets its
/// value; the first `[Data]` line, or the end of the input, ends the scan.
pub open spec fn scan_header_from(
    lines: Seq<Seq<u8>>,
    i: int,
    w: Option<int>,
    h: Option<int>,
) -> HeaderScan
    decreases lines.len() - i,
{
    if !(0 <= i < lines.len()) {
        match (w, h) {
            (Option::Some(wv), Option::Some(hv)) => HeaderScan::Found {
                width: wv,
                height: hv,
                next: lines.len() as int,
            },
            (Option::None, _) => HeaderScan::NoWidth,
            (Option::Some(_), Option::None) => HeaderScan::NoHeight,
        }
    } else if lines[i] == data_marker() {
        match (w, h) {
            (Option::Some(wv), Option::Some(hv)) => HeaderScan::Found {
                width: wv,
                height: hv,
                next: i + 1,
            },
            (Option::None, _) => HeaderScan::NoWidth,
            (Option::Some(_), Option::None) => HeaderScan::NoHeight,
        }
    } else if starts_with(lines[i], width_key()) {
        match scan_value(lines[i]) {
            ValueScan::NoEquals => HeaderScan::NoEquals { line: i },
            ValueScan::BadNumber(_) => HeaderScan::BadNumber { line: i },
            ValueScan::Value(v) => scan_header_from(lines, i + 1, Option::Some(v), h),
        }
    } else if starts_with(lines[i], height_key()) {
        match scan_value(lines[i]) {
            ValueScan::NoEquals => HeaderScan::NoEquals { line: i },
            ValueScan::BadNumber(_) => HeaderScan::BadNumber { line: i },
            ValueScan::Value(v) => scan_header_from(lines, i + 1, w, Option::Some(v)),
        }
    } else {
        scan_header_from(lines, i + 1, w, h)
    }
}

/// The whole header scan of a line sequence.
pub open spec fn scan_header(lines: Seq<Seq<u8>>) -> HeaderScan {
    scan_header_from(lines, 0, Option::None, Option::None)
}

/// The declared value a scan variable stands for.
pub open spec fn opt_value(o: Option<usize>) -> Option<int> {
    match o {
        Option::None => Option::None,
        Option::Some(v) => Option::Some(v as int),
    }
}

/// A text `.irb` file: the declared dimensions and the sample grid.
///
/// A sample is the exact source form of one matrix entry: its numeric
/// token after delimiter normalization (`;` to space, decimal `,` to `.`).
/// The grid is row-major; the invariant is `width * height` samples.  Both
/// accessors take the coordinate pair in `(column, row)` order.
#[derive(Debug)]
pub struct Irb {
    height: usize,
    width: usize,
    data: Vec<String>,
}

impl View for Irb {
    type V = Seq<Seq<char>>;

    closed spec fn view(&self) -> Seq<Seq<char>> {
        self.data.deep_view()
    }
}

impl Irb {
    /// The documented invariant: the grid holds one sample per pixel.
    #[verifier::type_invariant]
    spec fn well_formed(&self) -> bool {
        self.data@.len() == self.width * self.height
    }

    /// The declared image width.
    pub closed spec fn spec_width(&self) -> usize {
        self.width
    }

    /// The declared image height.
    pub closed spec fn spec_height(&self) -> usize {
        self.height
    }

    /// The declared image width.
    #[verifier::when_used_as_spec(spec_width)]
    pub fn width(&self) -> (w: usize)
        ensures
            w == self.spec_width(),
    {
        self.width
    }

    /// The declared image height.
    #[verifier::when_used_as_spec(spec_height)]
    pub fn height(&self) -> (h: usize)
        ensures
            h == self.spec_height(),
    {
        self.height
    }

    /// Scans line-oriented header text for `ImageWidth=` / `ImageHeight=`
    /// declarations up to the `[Data]` marker, failing fast on a malformed
    /// declaration.  Returns the two dimensions and the index of the first
    /// data line.  Absence of a width is reported before absence of a
    /// height, a documented precedence.
    pub fn read_header(lines: &Vec<Vec<u8>>) -> (r: Result<(usize, usize, usize), Error>)
        ensures
            ({
                let sc = scan_header(lines.deep_view());
                &&& (sc matches HeaderScan::Found { width, height, next } ==> (r matches Ok(t)
                    && t.0 == width && t.1 == height && t.2 == next))
                &&& (sc matches HeaderScan::NoEquals { line } ==> (r matches Err(e) && e
                    matches Error::MissingEqualsSign(b) && b@ == lines.deep_view()[line]))
                &&& (sc matches HeaderScan::BadNumber { line } ==> (r matches Err(e) && e
                    matches Error::ParseNumeric(b) && b@ == value_segment(
                    lines.deep_view()[line],
                )))
                &&& (sc is NoWidth ==> r == Err::<(usize, usize, usize), Error>(
                    Error::MissingWidth,
                ))
                &&& (sc is NoHeight ==> r == Err::<(usize, usize, usize), Error>(
                    Error::MissingHeight,
                ))
            }),
    {
        let ghost ls = lines.deep_view();
        let n = lines.len();
        let mut width: Option<usize> = None;
        let mut height: Option<usize> = None;
        let mut next = n;
        let mut i: usize = 0;
        while i < n
            invariant_except_break
                i <= n,
                n == ls.len(),
                next == n,
                ls == lines.deep_view(),
                scan_header(ls) == scan_header_from(ls, i as int, opt_value(width), opt_value(height)),
            ensures
                ls == lines.deep_view(),
                scan_header(ls) == (match (opt_value(width), opt_value(height)) {
                    (Option::Some(wv), Option::Some(hv)) => HeaderScan::Found {
                        width: wv,
                        height: hv,
                        next: next as int,
                    },
                    (Option::None, _) => HeaderScan::NoWidth,
                    (Option::Some(_), Option::None) => HeaderScan::NoHeight,
                }),
            decreases n - i,
        {
            let line = &lines[i];
            proof {
                assert(ls[i as int] =~= line@);
            }
            if is_data_line(line) {
                next = i + 1;
                break ;
            } else if is_width_line(line) {
                match parse_value(line) {
                    Ok(v) => {
                        width = Some(v);
                    },
                    Err(e) => {
                        return Err(e);
                    },
                }
            } else if is_height_line(line) {
                match parse_value(line) {
                    Ok(v) => {
                        height = Some(v);
                    },
                    Err(e) => {
                        return Err(e);
                    },
                }
            }
            i = i + 1;
        }
        match (width, height) {
            (Some(w), Some(h)) => Ok((w, h, next)),
            (None, _) => Err(Error::MissingWidth),
            (Some(_), None) => Err(Error::MissingHeight),
        }
    }
}

/// Law: a header in which no line declares a width and none declares a
/// height ends in `NoWidth`, whatever else its lines hold: the width is
/// checked first, so when both are missing the missing width is reported.
pub proof fn lemma_missing_both(lines: Seq<Seq<u8>>, i: int, h: Option<int>)
    requires
        0 <= i <= lines.len(),
        forall|j: int| i <= j < lines.len() ==> !starts_with(#[trigger] lines[j], width_key()),
        forall|j: int| i <= j < lines.len() ==> !starts_with(#[trigger] lines[j], height_key()),
    ensures
        scan_header_from(lines, i, Option::None, h) is NoWidth,
    decreases lines.len() - i,
{
    if i < lines.len() && lines[i] != data_marker() {
        lemma_missing_both(lines, i + 1, h);
    }
}

/// Law: a header that already carries a width, declares no height, and
/// whose remaining width declarations are all well formed ends in
/// `NoHeight`: a width alone is not enough.
pub proof fn lemma_missing_height(lines: Seq<Seq<u8>>, i: int, w: int)
    requires
        0 <= i <= lines.len(),
        forall|j: int| i <= j < lines.len() ==> !starts_with(#[trigger] lines[j], height_key()),
        forall|j: int|
            i <= j < lines.len() && starts_with(#[trigger] lines[j], width_key()) ==> scan_value(
                lines[j],
            ) is Value,
    ensures
        scan_header_from(lines, i, Option::Some(w), Option::None) is NoHeight,
    decreases lines.len() - i,
{
    if i < lines.len() && lines[i] != data_marker() {
        if starts_with(lines[i], width_key()) {
            match scan_value(lines[i]) {
                ValueScan::Value(v) => {
                    lemma_missing_height(lines, i + 1, v);
                },
                _ => {},
            }
        } else {
            lemma_missing_height(lines, i + 1, w);
        }
    }
}

// ----------------------------------------------------------------------
// Data rows.
// ----------------------------------------------------------------------
/// A line that holds nothing but whitespace.  Such lines are skipped
/// between data rows, so trailing newlines do not spuriously fail the row
/// count.
pub open spec fn is_blank(line: Seq<u8>) -> bool {
    trim(line).len() == 0
}

/// A trailing trim never removes a leading non-space byte.
proof fn lemma_trim_end_keeps_head(s: Seq<u8>)
    requires
        s.len() > 0,
        !is_space(s[0]),
    ensures
        trim_end(s).len() > 0,
    decreases s.len(),
{
    if s.len() > 0 && is_space(s.last()) {
        lemma_trim_end_keeps_head(s.drop_last());
    }
}

/// Decides whether a line is blank.
fn check_blank(line: &Vec<u8>) -> (r: bool)
    ensures
        r == is_blank(line@),
{
    let n = line.len();
    let mut i: usize = 0;
    while i < n
        invariant
            i <= n,
            n == line@.len(),
            forall|j: int| 0 <= j < i ==> is_space(#[trigger] line@[j]),
        decreases n - i,
    {
        let b = line[i];
        if !(b == 32 || (9 <= b && b <= 13)) {
            proof {
                lemma_trim_start(line@, i as int);
                let s2 = line@.subrange(i as int, n as int);
                assert(s2[0] == line@[i as int]);
                lemma_trim_end_keeps_head(s2);
            }
            return false;
        }
        i = i + 1;
    }
    proof {
        lemma_trim_start(line@, n as int);
        assert(line@.subrange(n as int, n as int) =~= Seq::<u8>::empty());
    }
    true
}

/// The tokens of one data row, after delimiter normalization.
pub open spec fn row_tokens(line: Seq<u8>) -> Seq<Seq<u8>> {
    tokens_of(line).map_values(|t: Seq<u8>| normalize_token(t))
}

/// Index of the first non-numeric token, or the count if all are numeric.
pub open spec fn first_bad_token(ts: Seq<Seq<u8>>) -> int
    decreases ts.len(),
{
    if ts.len() == 0 {
        0
    } else if !is_numeric_token(ts[0]) {
        0
    } else {
        1 + first_bad_token(ts.subrange(1, ts.len() as int))
    }
}

/// `first_bad_token` points at the first non-numeric token.
proof fn lemma_first_bad_token(ts: Seq<Seq<u8>>)
    ensures
        0 <= first_bad_token(ts) <= ts.len(),
        forall|j: int| 0 <= j < first_bad_token(ts) ==> is_numeric_token(#[trigger] ts[j]),
        first_bad_token(ts) < ts.len() ==> !is_numeric_token(ts[first_bad_token(ts)]),
    decreases ts.len(),
{
    if ts.len() == 0 {
    } else if !is_numeric_token(ts[0]) {
    } else {
        let t = ts.subrange(1, ts.len() as int);
        lemma_first_bad_token(t);
        assert forall|j: int| 0 <= j < first_bad_token(ts) implies is_numeric_token(ts[j]) by {
            if j > 0 {
                assert(ts[j] == t[j - 1]);
            }
        }
        if first_bad_token(ts) < ts.len() {
            assert(ts[first_bad_token(ts)] == t[first_bad_token(ts) - 1]);
        }
    }
}

/// A position that sees a non-numeric token first is `first_bad_token`.
proof fn lemma_first_bad_token_is(ts: Seq<Seq<u8>>, p: int)
    requires
        0 <= p <= ts.len(),
        forall|j: int| 0 <= j < p ==> is_numeric_token(#[trigger] ts[j]),
        p < ts.len() ==> !is_numeric_token(ts[p]),
    ensures
        first_bad_token(ts) == p,
{
    lemma_first_bad_token(ts);
    let f = first_bad_token(ts);
    if f < p {
        assert(is_numeric_token(ts[f]));
    } else if p < f {
        assert(is_numeric_token(ts[p]));
    }
}

/// Normalizes one token: every decimal comma becomes a point.
fn normalize_vec(t: &Vec<u8>) -> (r: Vec<u8>)
    ensures
        r@ == normalize_token(t@),
{
    let n = t.len();
    let mut r: Vec<u8> = Vec::new();
    let mut i: usize = 0;
    while i < n
        invariant
            i <= n,
            n == t@.len(),
            r@ == normalize_token(t@).subrange(0, i as int),
        decreases n - i,
    {
        let b = t[i];
        if b == 44 {
            r.push(46);
        } else {
            r.push(b);
        }
        i = i + 1;
        assert(r@ =~= normalize_token(t@).subrange(0, i as int));
    }
    assert(normalize_token(t@).subrange(0, n as int) =~= normalize_token(t@));
    r
}

/// What scanning the data rows yields.
pub enum MatrixScan {
    /// `rows` data rows, holding `values` sample tokens in row-major order.
    Rows { rows: int, values: Seq<Seq<u8>> },
    /// The row at `line` holds a token that is not numeric (the token,
    /// after normalization).
    BadToken { line: int, token: Seq<u8> },
    /// The row at `line` holds `cols` sample tokens instead of the width.
    WrongWidth { line: int, cols: int },
}

/// The scan of the data rows from line `i` on: blank lines are skipped;
/// every other line must hold exactly `width` numeric tokens, checked
/// token-first as the row is read; the first offending line decides.
pub open spec fn scan_rows_from(lines: Seq<Seq<u8>>, i: int, width: int) -> MatrixScan
    decreases lines.len() - i,
{
    if !(0 <= i < lines.len()) {
        MatrixScan::Rows { rows: 0, values: Seq::<Seq<u8>>::empty() }
    } else if is_blank(lines[i]) {
        scan_rows_from(lines, i + 1, width)
    } else {
        let ts = row_tokens(lines[i]);
        if first_bad_token(ts) < ts.len() {
            MatrixScan::BadToken { line: i, token: ts[first_bad_token(ts)] }
        } else if ts.len() != width {
            MatrixScan::WrongWidth { line: i, cols: ts.len() as int }
        } else {
            match scan_rows_from(lines, i + 1, width) {
                MatrixScan::Rows { rows, values } => MatrixScan::Rows {
                    rows: rows + 1,
                    values: ts + values,
                },
                e => e,
            }
        }
    }
}

/// The text a sample token stands for, one character per byte.
pub open spec fn token_text(t: Seq<u8>) -> Seq<char> {
    crate::utils::latin1_chars(t)
}

impl Irb {
    /// Consumes the lines from `from` on as a numeric matrix of `height`
    /// rows of `width` samples each, in row-major order.  A non-numeric
    /// token is `ParseNumeric`; a row with the wrong count is `ImageWidth`
    /// and is reported without consuming further rows; a wrong row count
    /// at the end is `ImageHeight`.
    pub fn read_data(lines: &Vec<Vec<u8>>, from: usize, width: usize, height: usize) -> (r: Result<
        Vec<String>,
        Error,
    >)
        ensures
            ({
                let sc = scan_rows_from(lines.deep_view(), from as int, width as int);
                &&& (sc matches MatrixScan::Rows { rows, values } ==> ((rows == height ==> (r
                    matches Ok(data) && data.deep_view() == values.map_values(
                    |t: Seq<u8>| token_text(t),
                ) && data@.len() == height * width)) && (rows != height ==> (r matches Err(e) && e
                    matches Error::ImageHeight(a, ex) && a == rows && ex == height))))
                &&& (sc matches MatrixScan::BadToken { line, token } ==> (r matches Err(e) && e
                    matches Error::ParseNumeric(b) && b@ == token))
                &&& (sc matches MatrixScan::WrongWidth { line, cols } ==> (r matches Err(e) && e
                    matches Error::ImageWidth(a, ex) && a == cols && ex == width))
            }),
    {
        let ghost ls = lines.deep_view();
        let ghost start_scan = scan_rows_from(ls, from as int, width as int);
        let n = lines.len();
        let mut data: Vec<String> = Vec::new();
        let ghost mut vals = Seq::<Seq<u8>>::empty();
        let mut rows: usize = 0;
        let mut i: usize = if from < n {
            from
        } else {
            n
        };
        proof {
            match scan_rows_from(ls, i as int, width as int) {
                MatrixScan::Rows { rows: r2, values: v2 } => {
                    assert(Seq::<Seq<u8>>::empty() + v2 =~= v2);
                },
                _ => {},
            }
        }
        while i < n
            invariant
                i <= n,
                n == ls.len(),
                ls == lines.deep_view(),
                rows <= i,
                vals.len() == rows * width,
                data.deep_view() == vals.map_values(|t: Seq<u8>| token_text(t)),
                start_scan == scan_rows_from(ls, from as int, width as int),
                start_scan == (match scan_rows_from(ls, i as int, width as int) {
                    MatrixScan::Rows { rows: r2, values: v2 } => (MatrixScan::Rows {
                        rows: rows + r2,
                        values: vals + v2,
                    }),
                    e => e,
                }),
            decreases n - i,
        {
            let line = &lines[i];
            proof {
                assert(ls[i as int] =~= line@);
            }
            let ghost lineview = ls[i as int];
            if !check_blank(line) {
                let toks = tokenize(line);
                let ghost row_ts = row_tokens(lineview);
                let m = toks.len();
                proof {
                    assert(m == row_ts.len());
                }
                let mut j: usize = 0;
                while j < m
                    invariant
                        j <= m,
                        i < n,
                        n == ls.len(),
                        ls == lines.deep_view(),
                        rows <= i,
                        lineview == ls[i as int],
                        !is_blank(lineview),
                        toks.deep_view() == tokens_of(lineview),
                        row_ts == row_tokens(lineview),
                        m == row_ts.len(),
                        m == toks@.len(),
                        vals.len() == rows * width,
                        data.deep_view() == (vals + row_ts.subrange(0, j as int)).map_values(
                            |t: Seq<u8>| token_text(t),
                        ),
                        forall|k: int| 0 <= k < j ==> is_numeric_token(#[trigger] row_ts[k]),
                        start_scan == scan_rows_from(ls, from as int, width as int),
                        start_scan == (match scan_rows_from(ls, i as int, width as int) {
                            MatrixScan::Rows { rows: r2, values: v2 } => (MatrixScan::Rows {
                                rows: rows + r2,
                                values: vals + v2,
                            }),
                            e => e,
                        }),
                    decreases m - j,
                {
                    let nt = normalize_vec(&toks[j]);
                    proof {
                        assert(toks.deep_view()[j as int] == toks@[j as int]@);
                        assert(row_ts[j as int] == normalize_token(tokens_of(lineview)[j as int]));
                        assert(nt@ == row_ts[j as int]);
                    }
                    if !check_numeric(&nt) {
                        proof {
                            lemma_first_bad_token_is(row_ts, j as int);
                        }
                        return Err(Error::ParseNumeric(nt));
                    }
                    let s = latin1_string(&nt, nt.len());
                    proof {
                        assert(nt@.take(nt@.len() as int) =~= nt@);
                    }
                    let ghost dv0 = data.deep_view();
                    let ghost acc0 = vals + row_ts.subrange(0, j as int);
                    data.push(s);
                    j = j + 1;
                    proof {
                        assert(data.deep_view() =~~= dv0.push(s@));
                        assert(vals + row_ts.subrange(0, j as int) =~= acc0.push(
                            row_ts[j - 1],
                        ));
                        assert(acc0.push(row_ts[j - 1]).map_values(|t: Seq<u8>| token_text(t))
                            =~~= acc0.map_values(|t: Seq<u8>| token_text(t)).push(
                            token_text(row_ts[j - 1]),
                        ));
                        assert(data.deep_view() =~~= (vals + row_ts.subrange(0, j as int)).map_values(
                            |t: Seq<u8>| token_text(t),
                        ));
                    }
                }
                proof {
                    lemma_first_bad_token_is(row_ts, m as int);
                }
                if m != width {
                    return Err(Error::ImageWidth(m, width));
                }
                proof {
                    assert(row_ts.subrange(0, m as int) =~= row_ts);
                    assert((rows + 1) * width == rows * width + width) by (nonlinear_arith);
                    match scan_rows_from(ls, i + 1, width as int) {
                        MatrixScan::Rows { rows: r3, values: v3 } => {
                            assert(vals + (row_ts + v3) =~= (vals + row_ts) + v3);
                        },
                        _ => {},
                    }
                    vals = vals + row_ts;
                }
                rows = rows + 1;
            }
            i = i + 1;
        }
        proof {
            assert(vals + Seq::<Seq<u8>>::empty() =~= vals);
        }
        if rows != height {
            return Err(Error::ImageHeight(rows, height));
        }
        Ok(data)
    }

    /// Opens a text `.irb` from its raw lines: the header is consumed
    /// first, and the dimensions it declares gate the matrix that the
    /// remaining lines hold.
    pub fn from_lines(lines: &Vec<Vec<u8>>) -> (r: Result<Irb, Error>)
        ensures
            ({
                let ls = lines.deep_view();
                let sc = scan_header(ls);
                &&& (sc matches HeaderScan::Found { width, height, next } ==> (match scan_rows_from(
                    ls,
                    next,
                    width,
                ) {
                    MatrixScan::Rows { rows, values } => ((rows == height ==> (r matches Ok(irb)
                        && irb.spec_width() == width && irb.spec_height() == height && irb@
                        == values.map_values(|t: Seq<u8>| token_text(t)))) && (rows != height ==> (
                    r matches Err(e) && e matches Error::ImageHeight(a, ex) && a == rows && ex
                        == height))),
                    MatrixScan::BadToken { line, token } => (r matches Err(e) && e
                        matches Error::ParseNumeric(b) && b@ == token),
                    MatrixScan::WrongWidth { line, cols } => (r matches Err(e) && e
                        matches Error::ImageWidth(a, ex) && a == cols && ex == width),
                }))
                &&& (sc matches HeaderScan::NoEquals { line } ==> (r matches Err(e) && e
                    matches Error::MissingEqualsSign(b) && b@ == ls[line]))
                &&& (sc matches HeaderScan::BadNumber { line } ==> (r matches Err(e) && e
                    matches Error::ParseNumeric(b) && b@ == value_segment(ls[line])))
                &&& (sc is NoWidth ==> r == Err::<Irb, Error>(Error::MissingWidth))
                &&& (sc is NoHeight ==> r == Err::<Irb, Error>(Error::MissingHeight))
            }),
    {
        let (width, height, next) = match Irb::read_header(lines) {
            Ok(t) => t,
            Err(e) => {
                return Err(e);
            },
        };
        let data = match Irb::read_data(lines, next, width, height) {
            Ok(d) => d,
            Err(e) => {
                return Err(e);
            },
        };
        proof {
            assert(height * width == width * height) by (nonlinear_arith);
        }
        Ok(Irb { height, width, data })
    }

    /// Returns the sample token at the given column and row.
    ///
    /// Returns `None` if the column or the row is out of bounds; the
    /// caller decides whether that is an error.
    pub fn temperature(&self, col: usize, row: usize) -> (r: Option<String>)
        ensures
            col < self.spec_width() && row < self.spec_height() ==> (r matches Some(s) && s@
                == self@[row * self.spec_width() + col]),
            !(col < self.spec_width() && row < self.spec_height()) ==> r is None,
    {
        proof {
            use_type_invariant(self);
        }
        if col < self.width && row < self.height {
            proof {
                crate::image::lemma_row_major_in_range(
                    self.width as int,
                    self.height as int,
                    col as int,
                    row as int,
                );
            }
            let _n: usize = self.data.len();
            let s = self.data[row * self.width + col].clone();
            Some(s)
        } else {
            None
        }
    }

    /// The sample token at the given column and row, for call sites that
    /// have already validated both bounds.
    pub fn index(&self, col: usize, row: usize) -> (r: String)
        requires
            col < self.spec_width(),
            row < self.spec_height(),
        ensures
            r@ == self@[row * self.spec_width() + col],
    {
        proof {
            use_type_invariant(self);
            crate::image::lemma_row_major_in_range(
                self.width as int,
                self.height as int,
                col as int,
                row as int,
            );
        }
        let _n: usize = self.data.len();
        self.data[row * self.width + col].clone()
    }
}

} // verus!
