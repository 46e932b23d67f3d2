//! The decoder: look-ahead over whitespace, comments and lines, and one
//! request per kind of value that a consumer can ask for.

use vstd::prelude::*;
use crate::error::{Error, ErrorCode, Span};
use crate::read::{
    Read, Ref, SliceRead, StrRead, alpha_spec, ascii_str, char_at, digit_spec, eof_error,
    is_alpha, is_digit, is_whitespace, is_whitespace_line, lemma_scan_alpha, lemma_scan_numeric,
    lemma_scan_word, num_end, num_ok, num_symbolic, peek_at, point_error, position_at, scan_word,
    sign_end, str_lex, word_ok, ws_line_spec, ws_spec,
};
use vstd::string::{StrSliceExecFns, StringSliceAdditionalSpecFns};
use crate::access::{MapAcc, MapAccess, SeqAcc, TopMapAcc};
use crate::tagged::TaggedEnumValueAcc;

verus! {

/// Where a comment that starts at `k` (after its `#`) ends: past its newline,
/// or at the end of the input.
pub open spec fn comment_end(s: Seq<u8>, k: int) -> int
    decreases s.len() - k,
{
    if !(0 <= k < s.len()) {
        k
    } else if s[k] == 0x0a {
        k + 1
    } else {
        comment_end(s, k + 1)
    }
}

/// Skips whitespace and comments (`c`: inside a comment).
pub open spec fn skip_any(s: Seq<u8>, k: int, c: bool) -> int
    decreases s.len() - k,
{
    if !(0 <= k < s.len()) {
        k
    } else if c {
        skip_any(s, k + 1, s[k] != 0x0a)
    } else if s[k] == 0x23 {
        skip_any(s, k + 1, true)
    } else if ws_spec(s[k]) {
        skip_any(s, k + 1, false)
    } else {
        k
    }
}

/// Skips whitespace, comments and commas.
pub open spec fn skip_sep(s: Seq<u8>, k: int, c: bool) -> int
    decreases s.len() - k,
{
    if !(0 <= k < s.len()) {
        k
    } else if c {
        skip_sep(s, k + 1, s[k] != 0x0a)
    } else if s[k] == 0x23 {
        skip_sep(s, k + 1, true)
    } else if ws_spec(s[k]) || s[k] == 0x2c {
        skip_sep(s, k + 1, false)
    } else {
        k
    }
}

/// Skips whitespace within the line.
pub open spec fn skip_line(s: Seq<u8>, k: int) -> int
    decreases s.len() - k,
{
    if 0 <= k < s.len() && ws_line_spec(s[k]) {
        skip_line(s, k + 1)
    } else {
        k
    }
}

/// Skips whitespace, newlines and comments; also tells whether a line ended
/// on the way (`nl`) (`c`: inside a comment).
pub open spec fn skip_nl(s: Seq<u8>, k: int, nl: bool, c: bool) -> (int, bool)
    decreases s.len() - k,
{
    if !(0 <= k < s.len()) {
        (k, nl)
    } else if c {
        skip_nl(s, k + 1, nl, s[k] != 0x0a)
    } else if ws_line_spec(s[k]) {
        skip_nl(s, k + 1, nl, false)
    } else if s[k] == 0x23 {
        skip_nl(s, k + 1, true, true)
    } else if s[k] == 0x0a {
        skip_nl(s, k + 1, true, false)
    } else {
        (k, nl)
    }
}

/// What looking for the next byte on the current line yields.
pub open spec fn peek_line_spec(s: Seq<u8>, k: int) -> Result<Option<u8>, Error> {
    let e = skip_line(s, k);
    if e >= s.len() {
        Ok(None)
    } else if s[e] == 0x0a || s[e] == 0x23 {
        Err(point_error(ErrorCode::UnexpectedNewline, s, e))
    } else {
        Ok(Some(s[e]))
    }
}

/// What looking for the next byte on a later line yields.
pub open spec fn peek_newline_spec(s: Seq<u8>, k: int) -> Result<Option<u8>, Error> {
    let (e, nl) = skip_nl(s, k, false, false);
    if e >= s.len() {
        Ok(None)
    } else if nl {
        Ok(Some(s[e]))
    } else {
        Err(point_error(ErrorCode::ExpectedNewline(char_at(s, e)), s, e))
    }
}

pub proof fn lemma_comment_end(s: Seq<u8>, k: int)
    requires
        0 <= k <= s.len(),
    ensures
        k <= comment_end(s, k) <= s.len(),
        k < s.len() ==> k < comment_end(s, k),
        comment_end(s, k) < s.len() ==> comment_end(s, k) > k && s[comment_end(s, k) - 1]
            == 0x0a,
        skip_any(s, k, true) == skip_any(s, comment_end(s, k), false),
        skip_nl(s, k, true, true) == skip_nl(s, comment_end(s, k), true, false),
        forall|j: int| k <= j < comment_end(s, k) - 1 ==> #[trigger] s[j] != 0x0a,
        comment_end(s, k) > k ==> s[comment_end(s, k) - 1] == 0x0a || comment_end(s, k)
            == s.len(),
    decreases s.len() - k,
{
    if k < s.len() && s[k] != 0x0a {
        lemma_comment_end(s, k + 1);
    }
}

pub proof fn lemma_skip_any(s: Seq<u8>, k: int, c: bool)
    requires
        0 <= k <= s.len(),
    ensures
        k <= skip_any(s, k, c) <= s.len(),
        skip_sep(s, k, c) == ({
            let a = skip_any(s, k, c);
            if a < s.len() && s[a] == 0x2c {
                skip_sep(s, a + 1, false)
            } else {
                a
            }
        }),
    decreases s.len() - k,
{
    if k < s.len() {
        if c {
            lemma_skip_any(s, k + 1, s[k] != 0x0a);
        } else if s[k] == 0x23 {
            lemma_skip_any(s, k + 1, true);
        } else if ws_spec(s[k]) {
            lemma_skip_any(s, k + 1, false);
        }
    }
}

pub proof fn lemma_skip_sep(s: Seq<u8>, k: int, c: bool)
    requires
        0 <= k <= s.len(),
    ensures
        k <= skip_sep(s, k, c) <= s.len(),
        skip_sep(s, k, c) < s.len() ==> !ws_spec(s[skip_sep(s, k, c)]) && s[skip_sep(s, k, c)]
            != 0x23 && s[skip_sep(s, k, c)] != 0x2c,
        skip_any(s, skip_sep(s, k, c), false) == skip_sep(s, k, c),
        skip_sep(s, skip_sep(s, k, c), false) == skip_sep(s, k, c),
    decreases s.len() - k,
{
    if k < s.len() {
        if c {
            lemma_skip_sep(s, k + 1, s[k] != 0x0a);
        } else if s[k] == 0x23 {
            lemma_skip_sep(s, k + 1, true);
        } else if ws_spec(s[k]) || s[k] == 0x2c {
            lemma_skip_sep(s, k + 1, false);
        }
    }
}

pub proof fn lemma_skip_line(s: Seq<u8>, k: int)
    requires
        0 <= k <= s.len(),
    ensures
        k <= skip_line(s, k) <= s.len(),
    decreases s.len() - k,
{
    if k < s.len() && ws_line_spec(s[k]) {
        lemma_skip_line(s, k + 1);
    }
}

pub proof fn lemma_skip_nl(s: Seq<u8>, k: int, nl: bool, c: bool)
    requires
        0 <= k <= s.len(),
    ensures
        k <= skip_nl(s, k, nl, c).0 <= s.len(),
        nl ==> skip_nl(s, k, nl, c).1,
    decreases s.len() - k,
{
    if k < s.len() {
        if c {
            lemma_skip_nl(s, k + 1, nl, s[k] != 0x0a);
        } else if ws_line_spec(s[k]) {
            lemma_skip_nl(s, k + 1, nl, false);
        } else if s[k] == 0x23 {
            lemma_skip_nl(s, k + 1, true, true);
        } else if s[k] == 0x0a {
            lemma_skip_nl(s, k + 1, true, false);
        }
    }
}


/// A span from index `a` to index `b`.
pub open spec fn span_of(s: Seq<u8>, a: int, b: int) -> Span {
    Span::Span(position_at(s, a), position_at(s, b))
}

/// The kinds of error that carry the text they were raised on.
pub enum TextKind {
    InvalidBool,
    InvalidNum,
    UnexpectedWord,
}

/// How a request fails: with an error as it is, or with one that carries text.
pub enum Failure {
    Plain(Error),
    Text(TextKind, Seq<u8>, Span),
}

/// Whether the error `e` is the failure `f`.
pub open spec fn fails_as(e: Error, f: Failure) -> bool {
    match f {
        Failure::Plain(x) => e == x,
        Failure::Text(k, t, sp) => e.span == Some(sp) && match k {
            TextKind::InvalidBool => e.code matches ErrorCode::InvalidBool(m)
                && vstd::utf8::encode_utf8(m@) == t,
            TextKind::InvalidNum => e.code matches ErrorCode::InvalidNum(m)
                && vstd::utf8::encode_utf8(m@) == t,
            TextKind::UnexpectedWord => e.code matches ErrorCode::UnexpectedWord(m)
                && vstd::utf8::encode_utf8(m@) == t,
        },
    }
}

/// What a request returns, against what it should: the value, its span and
/// where the cursor ends, or the failure.
pub open spec fn outcome<T>(r: Result<(T, Span), Error>, want: Result<(T, Span, int), Failure>, at: int) -> bool {
    match r {
        Ok((v, sp)) => want == Ok::<(T, Span, int), Failure>((v, sp, at)),
        Err(e) => want matches Err(f) && fails_as(e, f),
    }
}

/// A number lexeme at `k`: its bytes and end, or why there is none.
pub open spec fn num_lex_spec(s: Seq<u8>, k: int) -> Result<(Seq<u8>, int), Error> {
    let e = num_end(s, k);
    if !num_ok(s, k) {
        Err(point_error(ErrorCode::ExpectedNumeric(char_at(s, e)), s, e))
    } else if e == k {
        if k >= s.len() {
            Err(eof_error())
        } else {
            Err(point_error(ErrorCode::ExpectedNumeric(char_at(s, k)), s, k))
        }
    } else {
        Ok((s.subrange(k, e), e))
    }
}

/// A word at `k`: its bytes and end, or why there is none.
pub open spec fn word_lex_spec(s: Seq<u8>, k: int) -> Result<(Seq<u8>, int), Error> {
    let e = scan_word(s, k);
    if word_ok(s, k) {
        Ok((s.subrange(k, e), e))
    } else {
        Err(point_error(ErrorCode::ExpectedAsciiAlphanumeric(char_at(s, e)), s, e))
    }
}

pub open spec fn is_quote(c: u8) -> bool {
    c == 0x22 || c == 0x27
}

/// A quoted string at `k` as text: content, end, and whether it held an escape.
pub open spec fn str_spec(s: Seq<u8>, k: int) -> Result<(Seq<u8>, int, bool), Error> {
    if k >= s.len() {
        Err(eof_error())
    } else if !is_quote(s[k]) {
        Err(point_error(ErrorCode::ExpectedQuote(char_at(s, k)), s, k))
    } else {
        match str_lex(s, k) {
            Ok((c, e, esc)) => if vstd::utf8::valid_utf8(c) {
                Ok((c, e, esc))
            } else {
                Err(Error { code: ErrorCode::InvalidUtf8, span: None })
            },
            Err(x) => Err(x),
        }
    }
}

/// An identifier at `k`: a quoted string, or a word that starts with a letter or `_`.
pub open spec fn ident_spec(s: Seq<u8>, k: int) -> Result<(Seq<u8>, int, bool), Error> {
    if k >= s.len() {
        Err(eof_error())
    } else if is_quote(s[k]) {
        str_spec(s, k)
    } else if !(alpha_spec(s[k]) || s[k] == 0x5f) {
        Err(point_error(ErrorCode::ExpectedAsciiAlphabetic(char_at(s, k)), s, k))
    } else {
        match word_lex_spec(s, k) {
            Ok((w, e)) => Ok((w, e, false)),
            Err(x) => Err(x),
        }
    }
}

pub open spec fn lower_spec(c: u8) -> u8 {
    if 0x41 <= c <= 0x5a {
        (c + 0x20) as u8
    } else {
        c
    }
}

/// `true` in any case.
pub open spec fn is_true_word(w: Seq<u8>) -> bool {
    w.len() == 4 && lower_spec(w[0]) == 0x74 && lower_spec(w[1]) == 0x72 && lower_spec(w[2])
        == 0x75 && lower_spec(w[3]) == 0x65
}

/// `false` in any case.
pub open spec fn is_false_word(w: Seq<u8>) -> bool {
    w.len() == 5 && lower_spec(w[0]) == 0x66 && lower_spec(w[1]) == 0x61 && lower_spec(w[2])
        == 0x6c && lower_spec(w[3]) == 0x73 && lower_spec(w[4]) == 0x65
}

/// The boolean a word stands for.
pub open spec fn bool_of(w: Seq<u8>) -> Option<bool> {
    if is_true_word(w) {
        Some(true)
    } else if is_false_word(w) {
        Some(false)
    } else {
        None
    }
}

/// The value of a run of decimal digits.
pub open spec fn digits_value(d: Seq<u8>) -> int
    decreases d.len(),
{
    if d.len() == 0 {
        0
    } else {
        digits_value(d.drop_last()) * 10 + (d.last() - 0x30)
    }
}

pub open spec fn all_digits(d: Seq<u8>) -> bool {
    d.len() > 0 && forall|j: int| 0 <= j < d.len() ==> digit_spec(#[trigger] d[j])
}

/// The value of an integer text as std's integer parsers read it: an optional
/// sign, then one or more digits.
pub open spec fn int_text_value(t: Seq<u8>) -> Option<int> {
    if t.len() > 0 && t[0] == 0x2d {
        let d = t.subrange(1, t.len() as int);
        if all_digits(d) {
            Some(-digits_value(d))
        } else {
            None
        }
    } else {
        let d = if t.len() > 0 && t[0] == 0x2b {
            t.subrange(1, t.len() as int)
        } else {
            t
        };
        if all_digits(d) {
            Some(digits_value(d))
        } else {
            None
        }
    }
}

/// The value of an integer text for a type with range `min..=max`; an
/// unsigned type (`min == 0`) takes no `-`.
pub open spec fn int_in_range(t: Seq<u8>, min: int, max: int) -> Option<int> {
    match int_text_value(t) {
        Some(v) => if min <= v <= max && !(min == 0 && t.len() > 0 && t[0] == 0x2d) {
            Some(v)
        } else {
            None
        },
        None => None,
    }
}

/// An integer request at `k` for the range `min..=max`.
pub open spec fn int_request(s: Seq<u8>, k: int, min: int, max: int) -> Result<(int, Span, int), Failure> {
    match num_lex_spec(s, k) {
        Ok((t, e)) => match int_in_range(t, min, max) {
            Some(v) => Ok((v, span_of(s, k, e), e)),
            None => Err(Failure::Text(TextKind::InvalidNum, t, span_of(s, k, e))),
        },
        Err(x) => Err(Failure::Plain(x)),
    }
}

/// A boolean request at `k`.
pub open spec fn bool_request(s: Seq<u8>, k: int) -> Result<(bool, Span, int), Failure> {
    match word_lex_spec(s, k) {
        Ok((w, e)) => match bool_of(w) {
            Some(b) => Ok((b, span_of(s, k, e), e)),
            None => Err(Failure::Text(TextKind::InvalidBool, w, span_of(s, k, e))),
        },
        Err(x) => Err(Failure::Plain(x)),
    }
}

pub proof fn lemma_digits_mono(d: Seq<u8>, k: int)
    requires
        0 <= k <= d.len(),
        forall|j: int| 0 <= j < d.len() ==> digit_spec(#[trigger] d[j]),
    ensures
        0 <= digits_value(d.subrange(0, k)) <= digits_value(d),
    decreases d.len(),
{
    if k == d.len() {
        assert(d.subrange(0, k) =~= d);
        lemma_digits_nonneg(d);
    } else {
        lemma_digits_mono(d.drop_last(), k);
        assert(d.drop_last().subrange(0, k) =~= d.subrange(0, k));
        lemma_digits_nonneg(d.drop_last());
    }
}

pub proof fn lemma_digits_nonneg(d: Seq<u8>)
    requires
        forall|j: int| 0 <= j < d.len() ==> digit_spec(#[trigger] d[j]),
    ensures
        0 <= digits_value(d),
    decreases d.len(),
{
    if d.len() > 0 {
        lemma_digits_nonneg(d.drop_last());
    }
}

/// Reads the digits of `t[from..]` as a number no larger than `max`.
fn parse_digits(t: &[u8], from: usize, max: u64) -> (r: Option<u64>)
    requires
        from <= t@.len(),
    ensures
        ({
            let d = t@.subrange(from as int, t@.len() as int);
            r == if all_digits(d) && digits_value(d) <= max {
                Some(digits_value(d) as u64)
            } else {
                None::<u64>
            }
        }),
{
    let ghost d = t@.subrange(from as int, t@.len() as int);
    if from >= t.len() {
        return None;
    }
    let mut acc: u64 = 0;
    let mut k: usize = from;
    while k < t.len()
        invariant
            from <= k <= t@.len(),
            d == t@.subrange(from as int, t@.len() as int),
            forall|j: int| from <= j < k ==> digit_spec(#[trigger] t@[j]),
            acc == digits_value(t@.subrange(from as int, k as int)),
            acc <= max,
        decreases t@.len() - k,
    {
        let c = t[k];
        if !is_digit(c) {
            assert(d[k - from] == c);
            return None;
        }
        let next: u128 = acc as u128 * 10 + (c - 0x30u8) as u128;
        assert(t@.subrange(from as int, k + 1).drop_last() =~= t@.subrange(from as int, k as int));
        if next > max as u128 {
            proof {
                if all_digits(d) {
                    lemma_digits_mono(d, k + 1 - from);
                    assert(d.subrange(0, k + 1 - from) =~= t@.subrange(from as int, k + 1));
                }
            }
            return None;
        }
        acc = next as u64;
        k += 1;
    }
    assert(t@.subrange(from as int, k as int) =~= d);
    Some(acc)
}

/// Reads an integer text for a type with range `min..=max` (`min <= 0 <= max`).
fn parse_int(t: &[u8], min: i64, max: u64) -> (r: Option<i128>)
    requires
        min <= 0,
    ensures
        r == match int_in_range(t@, min as int, max as int) {
            Some(v) => Some(v as i128),
            None => None::<i128>,
        },
{
    let len = t.len();
    if len > 0 && t[0] == 0x2du8 {
        if min == 0 {
            return None;
        }
        let lim: u64 = (0i128 - min as i128) as u64;
        proof {
            let d = t@.subrange(1, t@.len() as int);
            if all_digits(d) {
                lemma_digits_nonneg(d);
            }
        }
        match parse_digits(t, 1, lim) {
            Some(m) => Some(0i128 - m as i128),
            None => None,
        }
    } else {
        let from: usize = if len > 0 && t[0] == 0x2bu8 {
            1
        } else {
            0
        };
        proof {
            if from == 0 {
                assert(t@.subrange(0, t@.len() as int) =~= t@);
            }
        }
        proof {
            let d = t@.subrange(from as int, t@.len() as int);
            if all_digits(d) {
                lemma_digits_nonneg(d);
            }
        }
        match parse_digits(t, from, max) {
            Some(m) => Some(m as i128),
            None => None,
        }
    }
}

fn lower(c: u8) -> (r: u8)
    ensures
        r == lower_spec(c),
{
    if 0x41u8 <= c && c <= 0x5au8 {
        c + 0x20u8
    } else {
        c
    }
}

/// Reads `true` or `false`, in any case.
pub fn parse_bool(word: &str, span: Span) -> (r: Result<bool, Error>)
    ensures
        match bool_of(word.spec_bytes()) {
            Some(b) => r == Ok::<bool, Error>(b),
            None => r matches Err(e) && fails_as(
                e,
                Failure::Text(TextKind::InvalidBool, word.spec_bytes(), span),
            ),
        },
{
    let w = word.as_bytes();
    if w.len() == 4 && lower(w[0]) == 0x74u8 && lower(w[1]) == 0x72u8 && lower(w[2]) == 0x75u8
        && lower(w[3]) == 0x65u8 {
        Ok(true)
    } else if w.len() == 5 && lower(w[0]) == 0x66u8 && lower(w[1]) == 0x61u8 && lower(w[2])
        == 0x6cu8 && lower(w[3]) == 0x73u8 && lower(w[4]) == 0x65u8 {
        Ok(false)
    } else {
        let text = word.to_owned();
        proof {
            assert(vstd::utf8::encode_utf8(text@) == word.spec_bytes());
        }
        Err(Error::with_span(ErrorCode::InvalidBool(text), span))
    }
}

/// A deserializer over a string.
impl<'de> Deserializer<StrRead<'de>> {
    pub fn from_str(input: &'de str) -> (r: Deserializer<StrRead<'de>>)
        requires
            input.spec_bytes().len() < usize::MAX,
        ensures
            r.wf(),
            r.input() == input.spec_bytes(),
            r.at() == 0,
            r.indent == 0,
            r.scratch@.len() == 0,
    {
        Deserializer::new(StrRead::new(input))
    }
}

/// A deserializer over bytes.
impl<'de> Deserializer<SliceRead<'de>> {
    pub fn from_slice(input: &'de [u8]) -> (r: Deserializer<SliceRead<'de>>)
        requires
            input@.len() < usize::MAX,
        ensures
            r.wf(),
            r.input() == input@,
            r.at() == 0,
            r.indent == 0,
            r.scratch@.len() == 0,
    {
        Deserializer::new(SliceRead::new(input))
    }
}

/// A number lexeme is ASCII.
pub proof fn lemma_num_ascii(s: Seq<u8>, k: int)
    requires
        0 <= k <= s.len(),
    ensures
        k <= num_end(s, k) <= s.len(),
        forall|j: int| k <= j < num_end(s, k) ==> #[trigger] s[j] < 0x80,
{
    lemma_scan_numeric(s, k);
    if num_symbolic(s, k) {
        lemma_scan_alpha(s, sign_end(s, k) + 1);
    }
}

/// A word is ASCII.
pub proof fn lemma_word_ascii(s: Seq<u8>, k: int)
    requires
        0 <= k <= s.len(),
    ensures
        k <= scan_word(s, k) <= s.len(),
        forall|j: int| k <= j < scan_word(s, k) ==> #[trigger] s[j] < 0x80,
{
    lemma_scan_word(s, k);
}

/// Equal up to ASCII case.
pub open spec fn eq_ci_spec(a: Seq<u8>, b: Seq<u8>) -> bool {
    a.len() == b.len() && forall|j: int| 0 <= j < a.len() ==> lower_spec(#[trigger] a[j])
        == lower_spec(b[j])
}

pub open spec fn inf_lit() -> Seq<u8> {
    seq![0x2eu8, 0x69u8, 0x6eu8, 0x66u8]
}

pub open spec fn neg_inf_lit() -> Seq<u8> {
    seq![0x2du8, 0x2eu8, 0x69u8, 0x6eu8, 0x66u8]
}

pub open spec fn nan_lit() -> Seq<u8> {
    seq![0x2eu8, 0x6eu8, 0x61u8, 0x6eu8]
}

/// What a float lexeme stands for.
pub enum FloatClass {
    Invalid,
    NaN,
    Infinity,
    NegInfinity,
    /// the text (without a leading `+`) for a native float parser
    Decimal(Seq<u8>),
}

/// Classifies a float lexeme: one leading `+` is dropped (a sign after it is
/// invalid), `.inf` and `-.inf` in any case are infinities, `.nan` is refused,
/// anything else goes to a native parser.
pub open spec fn float_class(t: Seq<u8>) -> FloatClass {
    let plus = t.len() > 0 && t[0] == 0x2b;
    let st = if plus {
        t.subrange(1, t.len() as int)
    } else {
        t
    };
    if plus && st.len() > 0 && (st[0] == 0x2b || st[0] == 0x2d) {
        FloatClass::Invalid
    } else if eq_ci_spec(st, inf_lit()) {
        FloatClass::Infinity
    } else if eq_ci_spec(st, neg_inf_lit()) {
        FloatClass::NegInfinity
    } else if eq_ci_spec(st, nan_lit()) {
        FloatClass::NaN
    } else {
        FloatClass::Decimal(st)
    }
}

/// A float as the decoder hands it on: an infinity, or a decimal text that a
/// native float parser reads.
#[derive(Debug, Clone, PartialEq)]
pub enum FloatToken {
    Infinity,
    NegInfinity,
    Decimal(String),
}

/// A number for an untyped consumer: a float (kept as the text read, which
/// is `.inf`, `-.inf` or has decimal syntax), a negative integer, or an
/// unsigned one.
#[derive(Debug, Clone, PartialEq)]
pub enum NumberToken {
    U64(u64),
    I64(i64),
    Float(String),
}

impl NumberToken {
    pub open spec fn as_i64_spec(&self) -> Option<i64> {
        match *self {
            NumberToken::U64(u) => if u <= i64::MAX as u64 {
                Some(u as i64)
            } else {
                None
            },
            NumberToken::I64(i) => Some(i),
            NumberToken::Float(_) => None,
        }
    }

    /// The integer, when it is one in `i64`'s range.
    pub fn as_i64(&self) -> (r: Option<i64>)
        ensures
            r == self.as_i64_spec(),
    {
        match self {
            NumberToken::U64(u) => {
                if *u <= i64::MAX as u64 {
                    Some(*u as i64)
                } else {
                    None
                }
            },
            NumberToken::I64(i) => Some(*i),
            NumberToken::Float(_) => None,
        }
    }

    /// The integer, when it is a non-negative one.
    pub fn as_u64(&self) -> (r: Option<u64>)
        ensures
            r == match *self {
                NumberToken::U64(u) => Some(u),
                _ => None::<u64>,
            },
    {
        match self {
            NumberToken::U64(u) => Some(*u),
            _ => None,
        }
    }
}

pub open spec fn has_float_mark(t: Seq<u8>) -> bool {
    exists|j: int| 0 <= j < t.len() && (t[j] == 0x2e || t[j] == 0x65)
}

/// A bytes value: borrowed from the input, or built.
#[derive(Debug)]
pub enum Bytes<'de> {
    Borrowed(&'de [u8]),
    Owned(Vec<u8>),
}

impl<'de> Bytes<'de> {
    pub open spec fn view_bytes(&self) -> Seq<u8> {
        match *self {
            Bytes::Borrowed(b) => b@,
            Bytes::Owned(v) => v@,
        }
    }

    pub fn get(&self) -> (r: &[u8])
        ensures
            r@ == self.view_bytes(),
    {
        match self {
            Bytes::Borrowed(b) => b,
            Bytes::Owned(v) => v.as_slice(),
        }
    }

    pub fn is_borrowed(&self) -> (r: bool)
        ensures
            r == (self is Borrowed),
    {
        match self {
            Bytes::Borrowed(_) => true,
            Bytes::Owned(_) => false,
        }
    }
}

fn eq_ci(a: &[u8], b: &[u8]) -> (r: bool)
    ensures
        r == eq_ci_spec(a@, b@),
{
    if a.len() != b.len() {
        return false;
    }
    let mut j: usize = 0;
    while j < a.len()
        invariant
            a@.len() == b@.len(),
            j <= a@.len(),
            forall|i: int| 0 <= i < j ==> lower_spec(#[trigger] a@[i]) == lower_spec(b@[i]),
        decreases a@.len() - j,
    {
        if lower(a[j]) != lower(b[j]) {
            return false;
        }
        j += 1;
    }
    true
}

/// Opening a sequence at `k`: a `[` must stand there.
pub open spec fn seq_open_spec(s: Seq<u8>, k: int) -> Result<(), Error> {
    if k >= s.len() {
        Err(eof_error())
    } else if s[k] != 0x5b {
        Err(point_error(ErrorCode::ExpectedSeq(char_at(s, k)), s, k))
    } else {
        Ok(())
    }
}

/// Whether another element follows at `k`: commas, whitespace and comments
/// are skipped, `]` ends the sequence.
pub open spec fn seq_next_spec(s: Seq<u8>, k: int) -> Result<bool, Error> {
    let a = skip_sep(s, k, false);
    if a >= s.len() {
        Err(eof_error())
    } else {
        Ok(s[a] != 0x5d)
    }
}

/// Closing a sequence at `k`: after commas and whitespace, a `]`.
pub open spec fn seq_close_spec(s: Seq<u8>, k: int) -> Result<int, Error> {
    let a = skip_sep(s, k, false);
    if a >= s.len() {
        Err(eof_error())
    } else if s[a] != 0x5d {
        Err(point_error(ErrorCode::ExpectedSeqEnd(char_at(s, a)), s, a))
    } else {
        Ok(a + 1)
    }
}

/// The elements of a byte sequence from `k` on (after its `[`), and the
/// index after its `]`.
pub open spec fn byte_elems_spec(s: Seq<u8>, k: int) -> Result<(Seq<u8>, int), Failure>
    decreases s.len() - k,
{
    let a = skip_sep(s, k, false);
    if k < 0 || a >= s.len() {
        Err(Failure::Plain(eof_error()))
    } else if s[a] == 0x5d {
        Ok((seq![], a + 1))
    } else {
        match int_request(s, a, 0, 255) {
            Ok((v, _, e)) => if k < e <= s.len() {
                match byte_elems_spec(s, e) {
                    Ok((rest, end)) => Ok((seq![v as u8] + rest, end)),
                    Err(f) => Err(f),
                }
            } else {
                Err(Failure::Plain(eof_error()))
            },
            Err(f) => Err(f),
        }
    }
}

/// A bytes request at `k`: a quoted string (any bytes) or a sequence of byte
/// integers. Also tells whether the bytes are borrowed from the input.
pub open spec fn bytes_request(s: Seq<u8>, k: int) -> Result<(Seq<u8>, int, bool), Failure> {
    if k >= s.len() {
        Err(Failure::Plain(eof_error()))
    } else if is_quote(s[k]) {
        match str_lex(s, k) {
            Ok((c, e, esc)) => Ok((c, e, !esc)),
            Err(x) => Err(Failure::Plain(x)),
        }
    } else if s[k] == 0x5b {
        match byte_elems_spec(s, k + 1) {
            Ok((b, e)) => Ok((b, e, false)),
            Err(f) => Err(f),
        }
    } else {
        Err(Failure::Plain(point_error(ErrorCode::ExpectedBytes(char_at(s, k)), s, k)))
    }
}

/// Opening a map at `k`: `{` after whitespace opens a braced map; with no
/// composite open, anything else is the implicit top-level map.
pub open spec fn map_open_spec(s: Seq<u8>, k: int, indent: int) -> Result<(bool, int), Error> {
    let a = skip_any(s, k, false);
    if a < s.len() && s[a] == 0x7b {
        Ok((true, a + 1))
    } else if indent != 0 {
        if a >= s.len() {
            Err(eof_error())
        } else {
            Err(point_error(ErrorCode::ExpectedMap(char_at(s, a)), s, a))
        }
    } else {
        Ok((false, a))
    }
}

/// Opening a tagged value at `k`: a quote must stand there.
pub open spec fn enum_open_spec(s: Seq<u8>, k: int) -> Result<(), Error> {
    if k >= s.len() {
        Err(eof_error())
    } else if !is_quote(s[k]) {
        Err(point_error(ErrorCode::ExpectedEnum(char_at(s, k)), s, k))
    } else {
        Ok(())
    }
}

fn has_mark(b: &[u8]) -> (r: bool)
    ensures
        r == has_float_mark(b@),
{
    let mut j: usize = 0;
    while j < b.len()
        invariant
            j <= b@.len(),
            forall|i: int| 0 <= i < j ==> !(b@[i] == 0x2e || b@[i] == 0x65),
        decreases b@.len() - j,
    {
        if b[j] == 0x2eu8 || b[j] == 0x65u8 {
            return true;
        }
        j += 1;
    }
    false
}

/// The bytes that start a number for a consumer of unknown type.
pub open spec fn number_start(c: u8) -> bool {
    digit_spec(c) || c == 0x2e || c == 0x2d || c == 0x2b
}

pub fn is_number_start(c: u8) -> (r: bool)
    ensures
        r == number_start(c),
{
    is_digit(c) || c == 0x2eu8 || c == 0x2du8 || c == 0x2bu8
}

/// The end of the run of decimal digits from `k` on.
pub open spec fn digits_end(t: Seq<u8>, k: int) -> int
    decreases t.len() - k,
{
    if 0 <= k < t.len() && digit_spec(t[k]) {
        digits_end(t, k + 1)
    } else {
        k
    }
}

proof fn lemma_digits_end(t: Seq<u8>, k: int)
    requires
        0 <= k <= t.len(),
    ensures
        k <= digits_end(t, k) <= t.len(),
    decreases t.len() - k,
{
    if k < t.len() && digit_spec(t[k]) {
        lemma_digits_end(t, k + 1);
    }
}

/// Decimal float syntax: an optional sign, digits with an optional fraction
/// (at least one digit in all), then optionally `e`, an optional sign and at
/// least one digit.
pub open spec fn decimal_ok(t: Seq<u8>) -> bool {
    let a: int = if t.len() > 0 && (t[0] == 0x2b || t[0] == 0x2d) {
        1
    } else {
        0
    };
    let b = digits_end(t, a);
    let dot = b < t.len() && t[b] == 0x2e;
    let c = if dot {
        digits_end(t, b + 1)
    } else {
        b
    };
    let mantissa = (b - a) + if dot {
        c - (b + 1)
    } else {
        0
    };
    mantissa > 0 && (c == t.len() || (t[c] == 0x65 && {
        let d: int = if c + 1 < t.len() && (t[c + 1] == 0x2b || t[c + 1] == 0x2d) {
            c + 2
        } else {
            c + 1
        };
        digits_end(t, d) > d && digits_end(t, d) == t.len()
    }))
}

fn digits_end_exec(t: &[u8], k: usize) -> (r: usize)
    requires
        k <= t@.len(),
    ensures
        r == digits_end(t@, k as int),
{
    let mut i = k;
    while i < t.len() && is_digit(t[i])
        invariant
            k <= i <= t@.len(),
            digits_end(t@, i as int) == digits_end(t@, k as int),
        decreases t@.len() - i,
    {
        i += 1;
    }
    i
}

/// Whether `t` has decimal float syntax.
pub fn is_decimal(t: &[u8]) -> (r: bool)
    ensures
        r == decimal_ok(t@),
{
    let len = t.len();
    let a: usize = if len > 0 && (t[0] == 0x2bu8 || t[0] == 0x2du8) {
        1
    } else {
        0
    };
    let b = digits_end_exec(t, a);
    proof {
        lemma_digits_end(t@, a as int);
    }
    let dot = b < len && t[b] == 0x2eu8;
    let c = if dot {
        proof {
            lemma_digits_end(t@, b + 1);
        }
        digits_end_exec(t, b + 1)
    } else {
        b
    };
    let mantissa: usize = (b - a) + if dot {
        c - (b + 1)
    } else {
        0
    };
    if mantissa == 0 {
        return false;
    }
    if c == len {
        return true;
    }
    if t[c] != 0x65u8 {
        return false;
    }
    let d: usize = if c + 1 < len && (t[c + 1] == 0x2bu8 || t[c + 1] == 0x2du8) {
        c + 2
    } else {
        c + 1
    };
    let f = digits_end_exec(t, d);
    f > d && f == len
}

/// What a number for a consumer of unknown type is: a float, or an integer
/// of either sign.
pub enum NumKind {
    U(u64),
    I(i64),
    F,
}

/// Reading a number for a consumer of unknown type at `k`: a text with `.`
/// or `e` is a float (`.inf` and `-.inf` in any case, or decimal syntax;
/// `.nan` is refused), one that starts with `-` an `i64`, else a `u64`. On
/// success: its kind, its text and where it ends.
pub open spec fn number_spec(s: Seq<u8>, k: int) -> Result<(NumKind, Seq<u8>, int), Failure> {
    match num_lex_spec(s, k) {
        Err(x) => Err(Failure::Plain(x)),
        Ok((t, e)) => {
            let sp = span_of(s, k, e);
            if has_float_mark(t) {
                match float_class(t) {
                    FloatClass::NaN => Err(
                        Failure::Plain(Error { code: ErrorCode::UnsupportedNaN, span: Some(sp) }),
                    ),
                    FloatClass::Infinity => Ok((NumKind::F, t, e)),
                    FloatClass::NegInfinity => Ok((NumKind::F, t, e)),
                    FloatClass::Decimal(d) => if decimal_ok(d) {
                        Ok((NumKind::F, t, e))
                    } else {
                        Err(Failure::Text(TextKind::InvalidNum, t, sp))
                    },
                    FloatClass::Invalid => Err(Failure::Text(TextKind::InvalidNum, t, sp)),
                }
            } else if t[0] == 0x2d {
                match int_in_range(t, i64::MIN as int, i64::MAX as int) {
                    Some(v) => Ok((NumKind::I(v as i64), t, e)),
                    None => Err(Failure::Text(TextKind::InvalidNum, t, sp)),
                }
            } else {
                match int_in_range(t, 0, u64::MAX as int) {
                    Some(v) => Ok((NumKind::U(v as u64), t, e)),
                    None => Err(Failure::Text(TextKind::InvalidNum, t, sp)),
                }
            }
        },
    }
}

/// A number token is of the kind, with the text, that was read.
pub open spec fn num_matches(n: NumberToken, kind: NumKind, t: Seq<u8>) -> bool {
    match kind {
        NumKind::U(v) => n == NumberToken::U64(v),
        NumKind::I(v) => n == NumberToken::I64(v),
        NumKind::F => n matches NumberToken::Float(x) && vstd::utf8::encode_utf8(x@) == t,
    }
}

/// What a value of unknown type turns out to be, by its first byte.
pub enum AnyToken {
    /// a map: braced, or the top-level one
    Mapping(MapAccess),
    /// a sequence, whose `[` was consumed
    Sequence(SeqAcc),
    Number(NumberToken),
    Str(String),
    /// a quoted string followed by `[` on its line: the tag of a value
    Tagged(TaggedEnumValueAcc),
    Bool(bool),
}

/// A mayfig decoder over a reader.
pub struct Deserializer<R> {
    pub read: R,
    /// how many composites are open; 0 only for the implicit top-level map
    pub indent: usize,
    pub scratch: Vec<u8>,
}

impl<'de, R: Read<'de>> Deserializer<R> {
    pub open spec fn input(&self) -> Seq<u8> {
        self.read.input()
    }

    pub open spec fn at(&self) -> int {
        self.read.offset()
    }

    pub open spec fn wf(&self) -> bool {
        &&& self.read.wf()
        &&& self.indent <= self.read.offset() + 1
    }

    /// `next` is `self` with only the cursor moved.
    pub open spec fn moved(&self, next: &Self) -> bool {
        &&& next.wf()
        &&& next.input() == self.input()
        &&& next.indent == self.indent
        &&& next.at() >= self.at()
    }

    /// `next` is `self` with the cursor moved forward and the depth changed.
    pub open spec fn advanced(&self, next: &Self) -> bool {
        &&& next.wf()
        &&& next.input() == self.input()
        &&& next.at() >= self.at()
    }

    /// A decoder at the start of the reader's input.
    pub fn new(read: R) -> (r: Deserializer<R>)
        requires
            read.wf(),
        ensures
            r.wf(),
            r.read == read,
            r.indent == 0,
            r.scratch@.len() == 0,
    {
        proof {
            read.lemma_wf();
        }
        Deserializer { read, indent: 0, scratch: Vec::new() }
    }

    /// Skips the rest of a comment, its newline included; `None` when the input
    /// ends first.
    pub fn discard_comment(&mut self) -> (r: Option<()>)
        requires
            old(self).wf(),
        ensures
            old(self).moved(final(self)),
            final(self).at() == comment_end(old(self).input(), old(self).at()),
            r.is_none() ==> final(self).at() == final(self).input().len(),
            r.is_some() ==> final(self).at() > old(self).at() && final(self).input()[final(self).at() - 1] == 0x0a,
    {
        let ghost s = self.input();
        let ghost k0 = self.at();
        proof {
            self.read.lemma_wf();
        }
        loop
            invariant
                old(self).moved(self),
                s == self.input(),
                k0 == old(self).at(),
                k0 <= self.at() <= s.len(),
                comment_end(s, self.at()) == comment_end(s, k0),
            decreases s.len() - self.at(),
        {
            proof {
                self.read.lemma_wf();
            }
            let peek = match self.read.peek() {
                Some(p) => p,
                None => {
                    return None;
                },
            };
            self.read.discard();
            if peek == 0x0au8 {
                return Some(());
            }
        }
    }

    /// The next byte that is neither whitespace nor in a comment; the cursor
    /// stops on it.
    pub fn peek_any(&mut self) -> (r: Option<u8>)
        requires
            old(self).wf(),
        ensures
            old(self).moved(final(self)),
            final(self).at() == skip_any(old(self).input(), old(self).at(), false),
            r == peek_at(old(self).input(), final(self).at()),
    {
        let ghost s = self.input();
        let ghost k0 = self.at();
        proof {
            self.read.lemma_wf();
        }
        loop
            invariant
                old(self).moved(self),
                s == self.input(),
                k0 == old(self).at(),
                k0 <= self.at() <= s.len(),
                skip_any(s, self.at(), false) == skip_any(s, k0, false),
            decreases s.len() - self.at(),
        {
            proof {
                self.read.lemma_wf();
            }
            let peek = match self.read.peek() {
                Some(p) => p,
                None => {
                    return None;
                },
            };
            if peek == 0x23u8 {
                self.read.discard();
                proof {
                    lemma_comment_end(s, self.at());
                }
                if self.discard_comment().is_none() {
                    return None;
                }
            } else if is_whitespace(peek) {
                self.read.discard();
            } else {
                return Some(peek);
            }
        }
    }

    /// The next byte on the current line that is not whitespace; a newline or
    /// comment first is an `UnexpectedNewline` error.
    pub fn peek_line(&mut self) -> (r: Result<Option<u8>, Error>)
        requires
            old(self).wf(),
        ensures
            old(self).moved(final(self)),
            final(self).at() == skip_line(old(self).input(), old(self).at()),
            r == peek_line_spec(old(self).input(), old(self).at()),
    {
        let ghost s = self.input();
        let ghost k0 = self.at();
        proof {
            self.read.lemma_wf();
        }
        loop
            invariant
                old(self).moved(self),
                s == self.input(),
                k0 == old(self).at(),
                k0 <= self.at() <= s.len(),
                skip_line(s, self.at()) == skip_line(s, k0),
            decreases s.len() - self.at(),
        {
            proof {
                self.read.lemma_wf();
            }
            let peek = match self.read.peek() {
                Some(p) => p,
                None => {
                    return Ok(None);
                },
            };
            if is_whitespace_line(peek) {
                self.read.discard();
            } else if peek == 0x0au8 || peek == 0x23u8 {
                let point = self.read.position();
                return Err(Error::with_point(ErrorCode::UnexpectedNewline, point));
            } else {
                return Ok(Some(peek));
            }
        }
    }

    /// The next byte that is neither whitespace nor in a comment, which must
    /// stand on a later line: else an `ExpectedNewline` error.
    pub fn peek_newline(&mut self) -> (r: Result<Option<u8>, Error>)
        requires
            old(self).wf(),
        ensures
            old(self).moved(final(self)),
            final(self).at() == skip_nl(old(self).input(), old(self).at(), false, false).0,
            r == peek_newline_spec(old(self).input(), old(self).at()),
    {
        let ghost s = self.input();
        let ghost k0 = self.at();
        let mut is_newline = false;
        proof {
            self.read.lemma_wf();
        }
        loop
            invariant
                old(self).moved(self),
                s == self.input(),
                k0 == old(self).at(),
                k0 <= self.at() <= s.len(),
                skip_nl(s, self.at(), is_newline, false) == skip_nl(s, k0, false, false),
            decreases s.len() - self.at(),
        {
            proof {
                self.read.lemma_wf();
            }
            let peek = match self.read.peek() {
                Some(p) => p,
                None => {
                    return Ok(None);
                },
            };
            if is_whitespace_line(peek) {
                self.read.discard();
            } else if peek == 0x23u8 {
                is_newline = true;
                self.read.discard();
                proof {
                    lemma_comment_end(s, self.at());
                }
                if self.discard_comment().is_none() {
                    return Ok(None);
                }
            } else if peek == 0x0au8 {
                is_newline = true;
                self.read.discard();
            } else if is_newline {
                return Ok(Some(peek));
            } else {
                let point = self.read.position();
                return Err(Error::with_point(ErrorCode::ExpectedNewline(self.read.peek_char()), point));
            }
        }
    }

    /// Reads a number lexeme; an empty one is an `ExpectedNumeric` error.
    pub fn num(&mut self) -> (r: Result<(&'de str, Span), Error>)
        requires
            old(self).wf(),
        ensures
            old(self).moved(final(self)),
            match num_lex_spec(old(self).input(), old(self).at()) {
                Ok((t, e)) => r matches Ok((w, sp)) && w.spec_bytes() == t && sp == span_of(
                    old(self).input(),
                    old(self).at(),
                    e,
                ) && final(self).at() == e,
                Err(x) => r == Err::<(&'de str, Span), Error>(x),
            },
    {
        proof {
            self.read.lemma_wf();
            lemma_num_ascii(self.input(), self.at());
        }
        let start = self.read.position();
        self.scratch.clear();
        let w = match self.read.num(&mut self.scratch) {
            Ok(Ref::Borrow(b)) => b,
            Ok(Ref::Scratch(_)) => {
                proof {
                    assert(false);
                }
                return Err(Error::eof());
            },
            Err(e) => {
                return Err(e);
            },
        };
        if w.len() == 0 {
            let peek = match self.read.peek() {
                Some(p) => p,
                None => {
                    return Err(Error::eof());
                },
            };
            let point = self.read.position();
            return Err(Error::with_point(ErrorCode::ExpectedNumeric(self.read.peek_char()), point));
        }
        proof {
            lemma_num_ascii(self.input(), old(self).at());
        }
        let end = self.read.position();
        Ok((w, Span::Span(start, end)))
    }

    /// Reads a word of ASCII letters, digits and `_` (possibly empty).
    pub fn word(&mut self) -> (r: Result<(&'de str, Span), Error>)
        requires
            old(self).wf(),
        ensures
            old(self).moved(final(self)),
            match word_lex_spec(old(self).input(), old(self).at()) {
                Ok((t, e)) => r matches Ok((w, sp)) && w.spec_bytes() == t && sp == span_of(
                    old(self).input(),
                    old(self).at(),
                    e,
                ) && final(self).at() == e,
                Err(x) => r == Err::<(&'de str, Span), Error>(x),
            },
    {
        self.scratch.clear();
        let start = self.read.position();
        let w = match self.read.word(&mut self.scratch) {
            Ok(Ref::Borrow(b)) => b,
            Ok(Ref::Scratch(_)) => {
                proof {
                    assert(false);
                }
                return Err(Error::eof());
            },
            Err(e) => {
                return Err(e);
            },
        };
        let end = self.read.position();
        Ok((w, Span::Span(start, end)))
    }

    /// Reads a quoted string as text: borrowed when it holds no escape.
    pub fn str<'s>(&'s mut self) -> (r: Result<(Ref<'de, 's, str>, Span), Error>)
        requires
            old(self).wf(),
        ensures
            old(self).moved(final(self)),
            match str_spec(old(self).input(), old(self).at()) {
                Ok((c, e, esc)) => r matches Ok((t, sp)) && t.bytes() == c && (t is Borrow
                    <==> !esc) && sp == span_of(old(self).input(), old(self).at(), e) && final(self).at() == e,
                Err(x) => r matches Err(y) && y == x,
            },
    {
        proof {
            self.read.lemma_wf();
        }
        let peek = match self.read.peek() {
            Some(p) => p,
            None => {
                return Err(Error::eof());
            },
        };
        if peek != 0x22u8 && peek != 0x27u8 {
            let point = self.read.position();
            return Err(Error::with_point(ErrorCode::ExpectedQuote(self.read.peek_char()), point));
        }
        let start = self.read.position();
        let t = self.read.str(&mut self.scratch)?;
        let end = self.read.position();
        Ok((t, Span::Span(start, end)))
    }

    /// Reads a quoted string as bytes, which need not be UTF-8.
    pub fn str_bytes<'s>(&'s mut self) -> (r: Result<Ref<'de, 's, [u8]>, Error>)
        requires
            old(self).wf(),
            old(self).at() < old(self).input().len(),
            is_quote(old(self).input()[old(self).at()]),
        ensures
            old(self).moved(final(self)),
            match str_lex(old(self).input(), old(self).at()) {
                Ok((c, e, esc)) => r matches Ok(t) && t.bytes() == c && (t is Borrow <==> !esc)
                    && final(self).at() == e,
                Err(x) => r matches Err(y) && y == x,
            },
    {
        self.read.str_bytes(&mut self.scratch)
    }

    /// Reads an identifier: a quoted string, or a word that starts with an
    /// ASCII letter or `_`.
    pub fn identifier<'s>(&'s mut self) -> (r: Result<(Ref<'de, 's, str>, Span), Error>)
        requires
            old(self).wf(),
        ensures
            old(self).moved(final(self)),
            match ident_spec(old(self).input(), old(self).at()) {
                Ok((c, e, esc)) => r matches Ok((t, sp)) && t.bytes() == c && (t is Borrow
                    <==> !esc) && sp == span_of(old(self).input(), old(self).at(), e) && final(self).at() == e,
                Err(x) => r matches Err(y) && y == x,
            },
    {
        proof {
            self.read.lemma_wf();
        }
        let peek = match self.read.peek() {
            Some(p) => p,
            None => {
                return Err(Error::eof());
            },
        };
        if peek == 0x22u8 || peek == 0x27u8 {
            return self.str();
        } else if !(is_alpha(peek) || peek == 0x5fu8) {
            let point = self.read.position();
            return Err(Error::with_point(ErrorCode::ExpectedAsciiAlphabetic(self.read.peek_char()), point));
        }
        let (w, span) = self.word()?;
        Ok((Ref::Borrow(w), span))
    }

    /// A boolean: `true` or `false` in any case.
    pub fn deserialize_bool(&mut self) -> (r: Result<(bool, Span), Error>)
        requires
            old(self).wf(),
        ensures
            old(self).moved(final(self)),
            outcome(r, bool_request(old(self).input(), old(self).at()), final(self).at()),
    {
        let (w, span) = self.word()?;
        let b = parse_bool(w, span)?;
        Ok((b, span))
    }

    /// An integer in `min..=max`, for the fixed-width requests.
    fn deserialize_int(&mut self, min: i64, max: u64) -> (r: Result<(i128, Span), Error>)
        requires
            old(self).wf(),
            min <= 0,
        ensures
            old(self).moved(final(self)),
            match r {
                Ok((v, sp)) => int_request(old(self).input(), old(self).at(), min as int, max as int)
                    == Ok::<(int, Span, int), Failure>((v as int, sp, final(self).at())),
                Err(e) => int_request(old(self).input(), old(self).at(), min as int, max as int) matches Err(f)
                    && fails_as(e, f),
            },
    {
        let (w, span) = self.num()?;
        match parse_int(w.as_bytes(), min, max) {
            Some(v) => Ok((v, span)),
            None => {
                let text = w.to_owned();
                Err(Error::with_span(ErrorCode::InvalidNum(text), span))
            },
        }
    }

    /// A `u8`: decimal digits with an optional sign, in range.
    pub fn deserialize_u8(&mut self) -> (r: Result<(u8, Span), Error>)
        requires
            old(self).wf(),
        ensures
            old(self).moved(final(self)),
            match r {
                Ok((v, sp)) => int_request(old(self).input(), old(self).at(), u8::MIN as int, u8::MAX as int)
                    == Ok::<(int, Span, int), Failure>((v as int, sp, final(self).at())),
                Err(e) => int_request(old(self).input(), old(self).at(), u8::MIN as int, u8::MAX as int) matches Err(f)
                    && fails_as(e, f),
            },
    {
        let (v, span) = self.deserialize_int(u8::MIN as i64, u8::MAX as u64)?;
        Ok((v as u8, span))
    }

    /// A `u16`: decimal digits with an optional sign, in range.
    pub fn deserialize_u16(&mut self) -> (r: Result<(u16, Span), Error>)
        requires
            old(self).wf(),
        ensures
            old(self).moved(final(self)),
            match r {
                Ok((v, sp)) => int_request(old(self).input(), old(self).at(), u16::MIN as int, u16::MAX as int)
                    == Ok::<(int, Span, int), Failure>((v as int, sp, final(self).at())),
                Err(e) => int_request(old(self).input(), old(self).at(), u16::MIN as int, u16::MAX as int) matches Err(f)
                    && fails_as(e, f),
            },
    {
        let (v, span) = self.deserialize_int(u16::MIN as i64, u16::MAX as u64)?;
        Ok((v as u16, span))
    }

    /// A `u32`: decimal digits with an optional sign, in range.
    pub fn deserialize_u32(&mut self) -> (r: Result<(u32, Span), Error>)
        requires
            old(self).wf(),
        ensures
            old(self).moved(final(self)),
            match r {
                Ok((v, sp)) => int_request(old(self).input(), old(self).at(), u32::MIN as int, u32::MAX as int)
                    == Ok::<(int, Span, int), Failure>((v as int, sp, final(self).at())),
                Err(e) => int_request(old(self).input(), old(self).at(), u32::MIN as int, u32::MAX as int) matches Err(f)
                    && fails_as(e, f),
            },
    {
        let (v, span) = self.deserialize_int(u32::MIN as i64, u32::MAX as u64)?;
        Ok((v as u32, span))
    }

    /// A `u64`: decimal digits with an optional sign, in range.
    pub fn deserialize_u64(&mut self) -> (r: Result<(u64, Span), Error>)
        requires
            old(self).wf(),
        ensures
            old(self).moved(final(self)),
            match r {
                Ok((v, sp)) => int_request(old(self).input(), old(self).at(), u64::MIN as int, u64::MAX as int)
                    == Ok::<(int, Span, int), Failure>((v as int, sp, final(self).at())),
                Err(e) => int_request(old(self).input(), old(self).at(), u64::MIN as int, u64::MAX as int) matches Err(f)
                    && fails_as(e, f),
            },
    {
        let (v, span) = self.deserialize_int(u64::MIN as i64, u64::MAX as u64)?;
        Ok((v as u64, span))
    }

    /// A `i8`: decimal digits with an optional sign, in range.
    pub fn deserialize_i8(&mut self) -> (r: Result<(i8, Span), Error>)
        requires
            old(self).wf(),
        ensures
            old(self).moved(final(self)),
            match r {
                Ok((v, sp)) => int_request(old(self).input(), old(self).at(), i8::MIN as int, i8::MAX as int)
                    == Ok::<(int, Span, int), Failure>((v as int, sp, final(self).at())),
                Err(e) => int_request(old(self).input(), old(self).at(), i8::MIN as int, i8::MAX as int) matches Err(f)
                    && fails_as(e, f),
            },
    {
        let (v, span) = self.deserialize_int(i8::MIN as i64, i8::MAX as u64)?;
        Ok((v as i8, span))
    }

    /// A `i16`: decimal digits with an optional sign, in range.
    pub fn deserialize_i16(&mut self) -> (r: Result<(i16, Span), Error>)
        requires
            old(self).wf(),
        ensures
            old(self).moved(final(self)),
            match r {
                Ok((v, sp)) => int_request(old(self).input(), old(self).at(), i16::MIN as int, i16::MAX as int)
                    == Ok::<(int, Span, int), Failure>((v as int, sp, final(self).at())),
                Err(e) => int_request(old(self).input(), old(self).at(), i16::MIN as int, i16::MAX as int) matches Err(f)
                    && fails_as(e, f),
            },
    {
        let (v, span) = self.deserialize_int(i16::MIN as i64, i16::MAX as u64)?;
        Ok((v as i16, span))
    }

    /// A `i32`: decimal digits with an optional sign, in range.
    pub fn deserialize_i32(&mut self) -> (r: Result<(i32, Span), Error>)
        requires
            old(self).wf(),
        ensures
            old(self).moved(final(self)),
            match r {
                Ok((v, sp)) => int_request(old(self).input(), old(self).at(), i32::MIN as int, i32::MAX as int)
                    == Ok::<(int, Span, int), Failure>((v as int, sp, final(self).at())),
                Err(e) => int_request(old(self).input(), old(self).at(), i32::MIN as int, i32::MAX as int) matches Err(f)
                    && fails_as(e, f),
            },
    {
        let (v, span) = self.deserialize_int(i32::MIN as i64, i32::MAX as u64)?;
        Ok((v as i32, span))
    }

    /// A `i64`: decimal digits with an optional sign, in range.
    pub fn deserialize_i64(&mut self) -> (r: Result<(i64, Span), Error>)
        requires
            old(self).wf(),
        ensures
            old(self).moved(final(self)),
            match r {
                Ok((v, sp)) => int_request(old(self).input(), old(self).at(), i64::MIN as int, i64::MAX as int)
                    == Ok::<(int, Span, int), Failure>((v as int, sp, final(self).at())),
                Err(e) => int_request(old(self).input(), old(self).at(), i64::MIN as int, i64::MAX as int) matches Err(f)
                    && fails_as(e, f),
            },
    {
        let (v, span) = self.deserialize_int(i64::MIN as i64, i64::MAX as u64)?;
        Ok((v as i64, span))
    }

    /// A float: `.inf`, `-.inf` (any case, one `+` allowed before), or a
    /// decimal text for a native parser; `.nan` is refused.
    #[verifier::rlimit(30)]
    pub fn deserialize_f64(&mut self) -> (r: Result<(FloatToken, Span), Error>)
        requires
            old(self).wf(),
        ensures
            old(self).moved(final(self)),
            match num_lex_spec(old(self).input(), old(self).at()) {
                Err(x) => r == Err::<(FloatToken, Span), Error>(x),
                Ok((t, e)) => {
                    let sp = span_of(old(self).input(), old(self).at(), e);
                    match float_class(t) {
                        FloatClass::Invalid => r matches Err(err) && fails_as(
                            err,
                            Failure::Text(TextKind::InvalidNum, t, sp),
                        ),
                        FloatClass::NaN => r matches Err(err) && err.code == ErrorCode::UnsupportedNaN
                            && err.span == Some(sp),
                        FloatClass::Infinity => r matches Ok((FloatToken::Infinity, sp2)) && sp2 == sp
                            && final(self).at() == e,
                        FloatClass::NegInfinity => r matches Ok((FloatToken::NegInfinity, sp2)) && sp2
                            == sp && final(self).at() == e,
                        FloatClass::Decimal(d) => r matches Ok((FloatToken::Decimal(x), sp2))
                            && vstd::utf8::encode_utf8(x@) == d && sp2 == sp && final(self).at() == e,
                    }
                },
            },
    {
        proof {
            self.read.lemma_wf();
            lemma_num_ascii(self.input(), self.at());
        }
        let (w, span) = self.num()?;
        let b = w.as_bytes();
        let len = b.len();
        let plus = len > 0 && b[0] == 0x2bu8;
        let st: &[u8] = if plus {
            vstd::slice::slice_subrange(b, 1, len)
        } else {
            b
        };
        if plus && st.len() > 0 && (st[0] == 0x2bu8 || st[0] == 0x2du8) {
            return Err(Error::with_span(ErrorCode::InvalidNum(w.to_owned()), span));
        }
        let inf = [0x2eu8, 0x69u8, 0x6eu8, 0x66u8];
        let neg_inf = [0x2du8, 0x2eu8, 0x69u8, 0x6eu8, 0x66u8];
        let nan = [0x2eu8, 0x6eu8, 0x61u8, 0x6eu8];
        assert(inf@ =~= inf_lit());
        assert(neg_inf@ =~= neg_inf_lit());
        assert(nan@ =~= nan_lit());
        if eq_ci(st, inf.as_slice()) {
            Ok((FloatToken::Infinity, span))
        } else if eq_ci(st, neg_inf.as_slice()) {
            Ok((FloatToken::NegInfinity, span))
        } else if eq_ci(st, nan.as_slice()) {
            Err(Error::with_span(ErrorCode::UnsupportedNaN, span))
        } else {
            let text = ascii_str(st);
            Ok((FloatToken::Decimal(text.to_owned()), span))
        }
    }

    /// A number for an untyped consumer: see `number_spec`.
    #[verifier::rlimit(40)]
    pub fn deserialize_number(&mut self) -> (r: Result<(NumberToken, Span), Error>)
        requires
            old(self).wf(),
        ensures
            old(self).moved(final(self)),
            match number_spec(old(self).input(), old(self).at()) {
                Ok((kind, t, e)) => r matches Ok((n, sp)) && num_matches(n, kind, t) && sp
                    == span_of(old(self).input(), old(self).at(), e) && final(self).at() == e,
                Err(f) => r matches Err(y) && fails_as(y, f),
            },
    {
        proof {
            self.read.lemma_wf();
            lemma_num_ascii(self.input(), self.at());
        }
        let (w, span) = self.num()?;
        let b = w.as_bytes();
        if has_mark(b) {
            let len = b.len();
            let plus = len > 0 && b[0] == 0x2bu8;
            let st: &[u8] = if plus {
                vstd::slice::slice_subrange(b, 1, len)
            } else {
                b
            };
            if plus && st.len() > 0 && (st[0] == 0x2bu8 || st[0] == 0x2du8) {
                return Err(Error::with_span(ErrorCode::InvalidNum(w.to_owned()), span));
            }
            let inf = [0x2eu8, 0x69u8, 0x6eu8, 0x66u8];
            let neg_inf = [0x2du8, 0x2eu8, 0x69u8, 0x6eu8, 0x66u8];
            let nan = [0x2eu8, 0x6eu8, 0x61u8, 0x6eu8];
            assert(inf@ =~= inf_lit());
            assert(neg_inf@ =~= neg_inf_lit());
            assert(nan@ =~= nan_lit());
            if eq_ci(st, inf.as_slice()) || eq_ci(st, neg_inf.as_slice()) {
                return Ok((NumberToken::Float(w.to_owned()), span));
            }
            if eq_ci(st, nan.as_slice()) {
                return Err(Error::with_span(ErrorCode::UnsupportedNaN, span));
            }
            if is_decimal(st) {
                return Ok((NumberToken::Float(w.to_owned()), span));
            }
            return Err(Error::with_span(ErrorCode::InvalidNum(w.to_owned()), span));
        }
        if b[0] == 0x2du8 {
            match parse_int(b, i64::MIN, i64::MAX as u64) {
                Some(v) => Ok((NumberToken::I64(v as i64), span)),
                None => Err(Error::with_span(ErrorCode::InvalidNum(w.to_owned()), span)),
            }
        } else {
            match parse_int(b, 0, u64::MAX) {
                Some(v) => Ok((NumberToken::U64(v as u64), span)),
                None => Err(Error::with_span(ErrorCode::InvalidNum(w.to_owned()), span)),
            }
        }
    }

    /// A string, owned.
    pub fn deserialize_string(&mut self) -> (r: Result<(String, Span), Error>)
        requires
            old(self).wf(),
        ensures
            old(self).moved(final(self)),
            match str_spec(old(self).input(), old(self).at()) {
                Ok((c, e, esc)) => r matches Ok((t, sp)) && vstd::utf8::encode_utf8(t@) == c
                    && sp == span_of(old(self).input(), old(self).at(), e) && final(self).at() == e,
                Err(x) => r matches Err(y) && y == x,
            },
    {
        let (t, span) = self.str()?;
        Ok((t.into_owned(), span))
    }

    /// A character: a quoted string of exactly one character.
    pub fn deserialize_char(&mut self) -> (r: Result<(char, Span), Error>)
        requires
            old(self).wf(),
        ensures
            old(self).moved(final(self)),
            match str_spec(old(self).input(), old(self).at()) {
                Ok((c, e, esc)) => {
                    let sp = span_of(old(self).input(), old(self).at(), e);
                    if vstd::utf8::decode_utf8(c).len() == 1 {
                        r matches Ok((ch, sp2)) && ch == vstd::utf8::decode_utf8(c)[0] && sp2 == sp
                            && final(self).at() == e
                    } else {
                        r matches Err(err) && err.code is Custom && err.span == Some(sp)
                    }
                },
                Err(x) => r matches Err(y) && y == x,
            },
    {
        broadcast use vstd::utf8::encode_utf8_decode_utf8;

        let (t, span) = self.str()?;
        let text = t.get();
        if text.unicode_len() == 1 {
            Ok((text.get_char(0), span))
        } else {
            Err(Error::with_span(ErrorCode::Custom("expected a single character".to_owned()), span))
        }
    }

    /// Bytes: a quoted string (not checked for UTF-8), borrowed when it holds
    /// no escape, or a sequence of byte integers.
    #[verifier::rlimit(30)]
    pub fn deserialize_bytes(&mut self) -> (r: Result<Bytes<'de>, Error>)
        requires
            old(self).wf(),
        ensures
            old(self).advanced(final(self)),
            match bytes_request(old(self).input(), old(self).at()) {
                Ok((b, e, borrowed)) => r matches Ok(x) && x.view_bytes() == b && (x is Borrowed
                    <==> borrowed) && final(self).at() == e && final(self).indent == old(self).indent,
                Err(f) => r matches Err(y) && fails_as(y, f),
            },
    {
        proof {
            self.read.lemma_wf();
        }
        let peek = match self.read.peek() {
            Some(p) => p,
            None => {
                return Err(Error::eof());
            },
        };
        if peek == 0x22u8 || peek == 0x27u8 {
            match self.str_bytes()? {
                Ref::Borrow(b) => Ok(Bytes::Borrowed(b)),
                Ref::Scratch(sc) => Ok(Bytes::Owned(vstd::slice::slice_to_vec(sc))),
            }
        } else if peek == 0x5bu8 {
            let ghost s = self.input();
            let ghost indent0 = self.indent;
            let acc = self.deserialize_seq()?;
            let mut out: Vec<u8> = Vec::new();
            loop
                invariant
                    self.wf(),
                    self.input() == s,
                    s == old(self).input(),
                    0 <= old(self).at() < s.len(),
                    s[old(self).at()] == 0x5b,
                    indent0 == old(self).indent,
                    self.indent == indent0 + 1,
                    old(self).at() < self.at() <= s.len(),
                    byte_elems_spec(s, old(self).at() + 1) matches Ok((all, end)) ==> (
                    byte_elems_spec(s, self.at()) matches Ok((rest, end2)) && all == out@ + rest
                        && end2 == end),
                    byte_elems_spec(s, old(self).at() + 1) matches Err(f) ==> byte_elems_spec(
                        s,
                        self.at(),
                    ) == byte_elems_spec(s, old(self).at() + 1),
                decreases s.len() - self.at(),
            {
                let ghost k = self.at();
                proof {
                    self.read.lemma_wf();
                    lemma_skip_sep(s, k, false);
                    lemma_num_ascii(s, skip_sep(s, k, false));
                }
                let ghost a = skip_sep(s, k, false);
                let more = match acc.next_element(self) {
                    Ok(m) => m,
                    Err(e) => {
                        proof {
                            assert(byte_elems_spec(s, k) == Err::<(Seq<u8>, int), Failure>(
                                Failure::Plain(eof_error()),
                            ));
                        }
                        return Err(e);
                    },
                };
                if !more {
                    proof {
                        assert(byte_elems_spec(s, k) == Ok::<(Seq<u8>, int), Failure>(
                            (seq![], a + 1),
                        ));
                        assert(seq_close_spec(s, self.at()) == Ok::<int, Error>(a + 1));
                    }
                    acc.end(self)?;
                    return Ok(Bytes::Owned(out));
                }
                let (v, _) = match self.deserialize_u8() {
                    Ok(x) => x,
                    Err(e) => {
                        proof {
                            assert(int_request(s, a, 0, 255) is Err);
                            assert(byte_elems_spec(s, k) == Err::<(Seq<u8>, int), Failure>(
                                int_request(s, a, 0, 255)->Err_0,
                            ));
                        }
                        return Err(e);
                    },
                };
                let ghost before = out@;
                out.push(v);
                proof {
                    assert(int_request(s, a, 0, 255) is Ok);
                    if let Ok((all, end)) = byte_elems_spec(s, old(self).at() + 1) {
                        let rest = byte_elems_spec(s, k)->Ok_0.0;
                        let rest2 = byte_elems_spec(s, self.at())->Ok_0.0;
                        assert(rest == seq![v] + rest2);
                        assert(all == out@ + rest2) by {
                            assert(before + (seq![v] + rest2) =~= out@ + rest2);
                        }
                    }
                }
            }
        } else {
            let point = self.read.position();
            Err(Error::with_point(ErrorCode::ExpectedBytes(self.read.peek_char()), point))
        }
    }

    /// Unit values do not exist in mayfig.
    pub fn deserialize_unit(&mut self) -> (r: Result<(), Error>)
        ensures
            r == Err::<(), Error>(Error { code: ErrorCode::UnsupportedUnit, span: None }),
    {
        Err(Error::new(ErrorCode::UnsupportedUnit))
    }

    /// Opens a sequence: consumes its `[`.
    pub fn deserialize_seq(&mut self) -> (r: Result<SeqAcc, Error>)
        requires
            old(self).wf(),
        ensures
            old(self).advanced(final(self)),
            match seq_open_spec(old(self).input(), old(self).at()) {
                Ok(()) => r is Ok && final(self).at() == old(self).at() + 1 && final(self).indent
                    == old(self).indent + 1,
                Err(x) => r matches Err(y) && y == x,
            },
    {
        proof {
            self.read.lemma_wf();
        }
        let next = match self.read.peek() {
            Some(p) => p,
            None => {
                return Err(Error::eof());
            },
        };
        if next != 0x5bu8 {
            let point = self.read.position();
            return Err(Error::with_point(ErrorCode::ExpectedSeq(self.read.peek_char()), point));
        }
        let start = self.read.position();
        self.read.discard();
        self.indent = self.indent + 1;
        Ok(SeqAcc::new(start))
    }

    /// Opens a map: a braced one at `{`, else, with no composite open, the
    /// top-level map without braces.
    pub fn deserialize_map(&mut self) -> (r: Result<MapAccess, Error>)
        requires
            old(self).wf(),
        ensures
            old(self).advanced(final(self)),
            match map_open_spec(old(self).input(), old(self).at(), old(self).indent as int) {
                Ok((braced, e)) => r matches Ok(m) && m.is_braced() == braced && m.is_first()
                    && final(self).at() == e && final(self).indent == old(self).indent + 1,
                Err(x) => r matches Err(y) && y == x,
            },
    {
        proof {
            self.read.lemma_wf();
        }
        let start = self.read.position();
        let peek = self.peek_any();
        proof {
            self.read.lemma_wf();
        }
        match peek {
            Some(p) => {
                if p == 0x7bu8 {
                    self.read.discard();
                    self.indent = self.indent + 1;
                    return Ok(MapAccess::Braced(MapAcc::new()));
                }
            },
            None => {},
        }
        if self.indent != 0 {
            let p = match peek {
                Some(p) => p,
                None => {
                    return Err(Error::eof());
                },
            };
            let point = self.read.position();
            return Err(Error::with_point(ErrorCode::ExpectedMap(self.read.peek_char()), point));
        }
        self.indent = 1;
        Ok(MapAccess::Top(TopMapAcc::new()))
    }

    /// A value of unknown type, decided by its first byte: with no composite
    /// open, or at `{`, a map; `[` a sequence; a digit, `.`, `+` or `-` a
    /// number; a quote a string, or the tag of a value when `[` follows on its
    /// line; else a word, which must be a boolean.
    #[verifier::rlimit(30)]
    pub fn deserialize_any(&mut self) -> (r: Result<AnyToken, Error>)
        requires
            old(self).wf(),
        ensures
            old(self).advanced(final(self)),
            ({
                let s = old(self).input();
                let a = skip_any(s, old(self).at(), false);
                if a >= s.len() {
                    r == Err::<AnyToken, Error>(eof_error())
                } else if old(self).indent == 0 || s[a] == 0x7b {
                    match map_open_spec(s, a, old(self).indent as int) {
                        Ok((braced, e)) => r matches Ok(AnyToken::Mapping(m)) && m.is_braced()
                            == braced && m.is_first() && final(self).at() == e && final(self).indent
                            == old(self).indent + 1,
                        Err(x) => r matches Err(y) && y == x,
                    }
                } else if s[a] == 0x5b {
                    r matches Ok(AnyToken::Sequence(_)) && final(self).at() == a + 1 && final(self).indent == old(self).indent + 1
                } else if number_start(s[a]) {
                    final(self).indent == old(self).indent && match number_spec(s, a) {
                        Ok((kind, t, e)) => r matches Ok(AnyToken::Number(n)) && num_matches(
                            n,
                            kind,
                            t,
                        ) && final(self).at() == e,
                        Err(f) => r matches Err(y) && fails_as(y, f),
                    }
                } else if is_quote(s[a]) {
                    final(self).indent == old(self).indent && match str_spec(s, a) {
                        Ok((c, e, esc)) => final(self).at() == skip_line(s, e) && if peek_line_spec(
                            s,
                            e,
                        ) == Ok::<Option<u8>, Error>(Some(0x5bu8)) {
                            r matches Ok(AnyToken::Tagged(acc)) && acc.tag matches Some(t)
                                && vstd::utf8::encode_utf8(t@) == c
                        } else {
                            r matches Ok(AnyToken::Str(t)) && vstd::utf8::encode_utf8(t@) == c
                        },
                        Err(x) => r matches Err(y) && y == x,
                    }
                } else {
                    final(self).indent == old(self).indent && match word_lex_spec(s, a) {
                        Ok((w, e)) => match bool_of(w) {
                            Some(b) => r matches Ok(AnyToken::Bool(b2)) && b2 == b && final(self).at() == e,
                            None => r matches Err(y) && fails_as(
                                y,
                                Failure::Text(TextKind::UnexpectedWord, w, span_of(s, a, e)),
                            ),
                        },
                        Err(x) => r matches Err(y) && y == x,
                    }
                }
            }),
    {
        proof {
            self.read.lemma_wf();
            lemma_skip_any(self.input(), self.at(), false);
        }
        let peek = match self.peek_any() {
            Some(p) => p,
            None => {
                return Err(Error::eof());
            },
        };
        if self.indent == 0 || peek == 0x7bu8 {
            let m = self.deserialize_map()?;
            Ok(AnyToken::Mapping(m))
        } else if peek == 0x5bu8 {
            let acc = self.deserialize_seq()?;
            Ok(AnyToken::Sequence(acc))
        } else if is_number_start(peek) {
            let (n, _) = self.deserialize_number()?;
            Ok(AnyToken::Number(n))
        } else if peek == 0x22u8 || peek == 0x27u8 {
            let (t, _) = self.str()?;
            let text = t.into_owned();
            match self.peek_line() {
                Ok(Some(p)) => {
                    if p == 0x5bu8 {
                        return Ok(AnyToken::Tagged(TaggedEnumValueAcc::with_tag(text)));
                    }
                },
                _ => {},
            }
            Ok(AnyToken::Str(text))
        } else {
            let (w, span) = self.word()?;
            match parse_bool(w, span) {
                Ok(b) => Ok(AnyToken::Bool(b)),
                Err(_) => {
                    let text = w.to_owned();
                    Err(Error::with_span(ErrorCode::UnexpectedWord(text), span))
                },
            }
        }
    }

    /// Opens a tagged value: a quoted tag must stand at the cursor.
    pub fn deserialize_enum(&self) -> (r: Result<TaggedEnumValueAcc, Error>)
        requires
            self.wf(),
        ensures
            match enum_open_spec(self.input(), self.at()) {
                Ok(()) => r matches Ok(acc) && acc.tag.is_none(),
                Err(x) => r matches Err(y) && y == x,
            },
    {
        proof {
            self.read.lemma_wf();
        }
        let peek = match self.read.peek() {
            Some(p) => p,
            None => {
                return Err(Error::eof());
            },
        };
        if peek == 0x22u8 || peek == 0x27u8 {
            Ok(TaggedEnumValueAcc::new())
        } else {
            let point = self.read.position();
            Err(Error::with_point(ErrorCode::ExpectedEnum(self.read.peek_char()), point))
        }
    }

    /// Skips any run of whitespace, comments and commas.
    pub fn discard_commata(&mut self)
        requires
            old(self).wf(),
        ensures
            old(self).moved(final(self)),
            final(self).at() == skip_sep(old(self).input(), old(self).at(), false),
    {
        let ghost s = self.input();
        let ghost k0 = self.at();
        proof {
            self.read.lemma_wf();
        }
        loop
            invariant
                old(self).moved(self),
                s == self.input(),
                k0 == old(self).at(),
                k0 <= self.at() <= s.len(),
                skip_sep(s, self.at(), false) == skip_sep(s, k0, false),
            decreases s.len() - self.at(),
        {
            proof {
                self.read.lemma_wf();
                lemma_skip_any(s, self.at(), false);
            }
            match self.peek_any() {
                Some(p) => {
                    if p == 0x2cu8 {
                        self.read.discard();
                    } else {
                        return ;
                    }
                },
                None => {
                    return ;
                },
            }
        }
    }
}

} // verus!
