//! The byte cursor under the decoder and its lexers for numbers, words and
//! quoted strings.

use vstd::prelude::*;
use crate::error::{Error, ErrorCode, Position, Span};
use vstd::string::{StrSliceExecFns, StringSliceAdditionalSpecFns};

verus! {

/// ASCII whitespace: space, tab, carriage return, newline.
pub open spec fn ws_spec(c: u8) -> bool {
    c == 0x20 || c == 0x09 || c == 0x0d || c == 0x0a
}

/// Whitespace within a line: space, tab, carriage return.
pub open spec fn ws_line_spec(c: u8) -> bool {
    c == 0x20 || c == 0x09 || c == 0x0d
}

/// The bytes that end an unquoted lexeme.
pub open spec fn delim_spec(c: u8) -> bool {
    ws_spec(c) || c == 0x3d || c == 0x2c || c == 0x7b || c == 0x7d || c == 0x5b || c == 0x5d
        || c == 0x23
}

pub open spec fn alpha_spec(c: u8) -> bool {
    (0x41 <= c <= 0x5a) || (0x61 <= c <= 0x7a)
}

pub open spec fn digit_spec(c: u8) -> bool {
    0x30 <= c <= 0x39
}

/// What an unquoted word is made of: ASCII letters, digits and `_`.
pub open spec fn word_byte_spec(c: u8) -> bool {
    alpha_spec(c) || digit_spec(c) || c == 0x5f
}

/// What a number lexeme is made of: digits, `.`, `e`, `-`, `+`.
pub open spec fn numeric_byte_spec(c: u8) -> bool {
    digit_spec(c) || c == 0x2e || c == 0x65 || c == 0x2d || c == 0x2b
}

pub open spec fn control_spec(c: u8) -> bool {
    c < 0x20 || c == 0x7f
}

/// How many bytes the UTF-8 sequence that `c` leads takes (1 for a byte that
/// leads none).
pub open spec fn utf8_width(c: u8) -> int {
    if 0xc0 <= c <= 0xdf {
        2
    } else if 0xe0 <= c <= 0xef {
        3
    } else if 0xf0 <= c <= 0xf7 {
        4
    } else {
        1
    }
}

/// The character that starts at byte `k`, for error messages: the UTF-8
/// character there when the bytes form one, else the byte itself.
pub open spec fn char_at(s: Seq<u8>, k: int) -> char {
    let w = utf8_width(s[k]);
    let e = if k + w <= s.len() {
        k + w
    } else {
        s.len() as int
    };
    let b = s.subrange(k, e);
    if s[k] >= 0x80 && vstd::utf8::valid_utf8(b) && vstd::utf8::decode_utf8(b).len() > 0 {
        vstd::utf8::decode_utf8(b)[0]
    } else {
        s[k] as char
    }
}

pub open spec fn peek_at(s: Seq<u8>, i: int) -> Option<u8> {
    if 0 <= i < s.len() {
        Some(s[i])
    } else {
        None
    }
}

/// The 1-indexed line of byte `i`.
pub open spec fn line_at(s: Seq<u8>, i: int) -> int
    decreases i,
{
    if i <= 0 {
        1
    } else {
        line_at(s, i - 1) + if s[i - 1] == 0x0a {
            1int
        } else {
            0int
        }
    }
}

/// The 1-indexed column of byte `i`.
pub open spec fn col_at(s: Seq<u8>, i: int) -> int
    decreases i,
{
    if i <= 0 {
        1
    } else if s[i - 1] == 0x0a {
        1
    } else {
        col_at(s, i - 1) + 1
    }
}

pub open spec fn position_at(s: Seq<u8>, i: int) -> Position {
    Position { line: line_at(s, i) as usize, col: col_at(s, i) as usize, index: i as usize }
}

pub proof fn lemma_line_col_bound(s: Seq<u8>, i: int)
    requires
        0 <= i,
    ensures
        line_at(s, i) >= 1,
        col_at(s, i) >= 1,
        line_at(s, i) + col_at(s, i) <= i + 2,
    decreases i,
{
    if i > 0 {
        lemma_line_col_bound(s, i - 1);
    }
}

/// The end of the run of bytes from `k` on that satisfy the number rule.
pub open spec fn scan_numeric(s: Seq<u8>, k: int) -> int
    decreases s.len() - k,
{
    if 0 <= k < s.len() && numeric_byte_spec(s[k]) {
        scan_numeric(s, k + 1)
    } else {
        k
    }
}

pub open spec fn scan_alpha(s: Seq<u8>, k: int) -> int
    decreases s.len() - k,
{
    if 0 <= k < s.len() && alpha_spec(s[k]) {
        scan_alpha(s, k + 1)
    } else {
        k
    }
}

pub open spec fn scan_word(s: Seq<u8>, k: int) -> int
    decreases s.len() - k,
{
    if 0 <= k < s.len() && word_byte_spec(s[k]) {
        scan_word(s, k + 1)
    } else {
        k
    }
}

pub proof fn lemma_scan_numeric(s: Seq<u8>, k: int)
    requires
        0 <= k <= s.len(),
    ensures
        k <= scan_numeric(s, k) <= s.len(),
        forall|j: int| k <= j < scan_numeric(s, k) ==> numeric_byte_spec(#[trigger] s[j]),
        scan_numeric(s, k) < s.len() ==> !numeric_byte_spec(s[scan_numeric(s, k)]),
    decreases s.len() - k,
{
    if k < s.len() && numeric_byte_spec(s[k]) {
        lemma_scan_numeric(s, k + 1);
    }
}

pub proof fn lemma_scan_alpha(s: Seq<u8>, k: int)
    requires
        0 <= k <= s.len(),
    ensures
        k <= scan_alpha(s, k) <= s.len(),
        forall|j: int| k <= j < scan_alpha(s, k) ==> alpha_spec(#[trigger] s[j]),
    decreases s.len() - k,
{
    if k < s.len() && alpha_spec(s[k]) {
        lemma_scan_alpha(s, k + 1);
    }
}

pub proof fn lemma_scan_word(s: Seq<u8>, k: int)
    requires
        0 <= k <= s.len(),
    ensures
        k <= scan_word(s, k) <= s.len(),
        forall|j: int| k <= j < scan_word(s, k) ==> word_byte_spec(#[trigger] s[j]),
        scan_word(s, k) < s.len() ==> !word_byte_spec(s[scan_word(s, k)]),
    decreases s.len() - k,
{
    if k < s.len() && word_byte_spec(s[k]) {
        lemma_scan_word(s, k + 1);
    }
}

/// Where the sign of a number ends.
pub open spec fn sign_end(s: Seq<u8>, i: int) -> int {
    if 0 <= i < s.len() && (s[i] == 0x2d || s[i] == 0x2b) {
        i + 1
    } else {
        i
    }
}

/// A number that is a symbolic token: an optional sign, `.` and letters (`.inf`).
pub open spec fn num_symbolic(s: Seq<u8>, i: int) -> bool {
    let a = sign_end(s, i);
    a + 1 < s.len() && s[a] == 0x2e && alpha_spec(s[a + 1])
}

/// Where the number lexeme that starts at `i` ends.
pub open spec fn num_end(s: Seq<u8>, i: int) -> int {
    if num_symbolic(s, i) {
        scan_alpha(s, sign_end(s, i) + 1)
    } else {
        scan_numeric(s, i)
    }
}

/// Whether the number lexeme at `i` is followed by a delimiter or the end
/// (a symbolic token needs neither).
pub open spec fn num_ok(s: Seq<u8>, i: int) -> bool {
    num_symbolic(s, i) || num_end(s, i) >= s.len() || delim_spec(s[num_end(s, i)])
}

pub open spec fn word_ok(s: Seq<u8>, i: int) -> bool {
    scan_word(s, i) >= s.len() || delim_spec(s[scan_word(s, i)])
}

/// The byte that an escape letter stands for.
pub open spec fn escape_spec(c: u8) -> Option<u8> {
    if c == 0x22 {
        Some(0x22u8)
    } else if c == 0x27 {
        Some(0x27u8)
    } else if c == 0x5c {
        Some(0x5cu8)
    } else if c == 0x2f {
        Some(0x2fu8)
    } else if c == 0x6e {
        Some(0x0au8)
    } else if c == 0x72 {
        Some(0x0du8)
    } else if c == 0x74 {
        Some(0x09u8)
    } else if c == 0x62 {
        Some(0x08u8)
    } else if c == 0x66 {
        Some(0x0cu8)
    } else {
        None
    }
}

pub open spec fn eof_error() -> Error {
    Error { code: ErrorCode::Eof, span: None }
}

pub open spec fn point_error(code: ErrorCode, s: Seq<u8>, k: int) -> Error {
    Error { code, span: Some(Span::Point(position_at(s, k))) }
}

/// What a quoted string becomes when its body is read from `k` on, closed by
/// `q`: its content so far is `acc`, `esc` tells whether an escape was seen.
/// On success: the content, the index after the closing quote, and `esc`.
pub open spec fn str_scan(s: Seq<u8>, q: u8, k: int, acc: Seq<u8>, esc: bool) -> Result<
    (Seq<u8>, int, bool),
    Error,
>
    decreases s.len() - k,
{
    if k < 0 || k >= s.len() {
        Err(eof_error())
    } else if s[k] == q {
        Ok((acc, k + 1, esc))
    } else if control_spec(s[k]) {
        Err(point_error(ErrorCode::UnescapedControl(char_at(s, k)), s, k))
    } else if s[k] == 0x5c {
        if k + 1 >= s.len() {
            Err(eof_error())
        } else {
            match escape_spec(s[k + 1]) {
                Some(b) => str_scan(s, q, k + 2, acc.push(b), true),
                None => Err(point_error(ErrorCode::UnknownEscape(char_at(s, k + 1)), s, k + 1)),
            }
        }
    } else {
        str_scan(s, q, k + 1, acc.push(s[k]), esc)
    }
}

/// A quoted string at `i`, including the check that a delimiter follows it.
pub open spec fn str_lex(s: Seq<u8>, i: int) -> Result<(Seq<u8>, int, bool), Error> {
    match str_scan(s, s[i], i + 1, seq![], false) {
        Ok((c, e, esc)) => if e < s.len() && !delim_spec(s[e]) {
            Err(point_error(ErrorCode::ExpectedDelimiter(char_at(s, e)), s, e))
        } else {
            Ok((c, e, esc))
        },
        Err(err) => Err(err),
    }
}

pub proof fn lemma_str_scan_end(s: Seq<u8>, q: u8, k: int, acc: Seq<u8>, esc: bool)
    requires
        0 <= k,
    ensures
        str_scan(s, q, k, acc, esc) matches Ok((c, e, esc2)) ==> k < e <= s.len() && (!esc2
            ==> !esc),
    decreases s.len() - k,
{
    if k < s.len() && s[k] != q && !control_spec(s[k]) {
        if s[k] == 0x5c {
            if k + 1 < s.len() {
                if let Some(b) = escape_spec(s[k + 1]) {
                    lemma_str_scan_end(s, q, k + 2, acc.push(b), true);
                }
            }
        } else {
            lemma_str_scan_end(s, q, k + 1, acc.push(s[k]), esc);
        }
    }
}

/// A lexeme: borrowed from the input when it needed no rewriting, else a view
/// of the scratch buffer.
#[derive(Debug)]
pub enum Ref<'de, 's, T: ?Sized> {
    Borrow(&'de T),
    Scratch(&'s T),
}

impl<'de, 's> Ref<'de, 's, [u8]> {
    pub open spec fn bytes(&self) -> Seq<u8> {
        match *self {
            Ref::Borrow(b) => b@,
            Ref::Scratch(b) => b@,
        }
    }

    /// The bytes, wherever they live.
    pub fn get(&self) -> (r: &[u8])
        ensures
            r@ == self.bytes(),
    {
        match self {
            Ref::Borrow(b) => b,
            Ref::Scratch(s) => s,
        }
    }

    pub fn is_borrowed(&self) -> (r: bool)
        ensures
            r == (self is Borrow),
    {
        match self {
            Ref::Borrow(_) => true,
            Ref::Scratch(_) => false,
        }
    }
}

impl<'de, 's> Ref<'de, 's, str> {
    pub open spec fn bytes(&self) -> Seq<u8> {
        match *self {
            Ref::Borrow(b) => b.spec_bytes(),
            Ref::Scratch(b) => b.spec_bytes(),
        }
    }

    pub open spec fn chars(&self) -> Seq<char> {
        match *self {
            Ref::Borrow(b) => b@,
            Ref::Scratch(b) => b@,
        }
    }

    /// The text, wherever it lives.
    pub fn get(&self) -> (r: &str)
        ensures
            r@ == self.chars(),
            r.spec_bytes() == self.bytes(),
    {
        match self {
            Ref::Borrow(b) => b,
            Ref::Scratch(s) => s,
        }
    }

    pub fn is_borrowed(&self) -> (r: bool)
        ensures
            r == (self is Borrow),
    {
        match self {
            Ref::Borrow(_) => true,
            Ref::Scratch(_) => false,
        }
    }

    /// An owned copy of the text.
    pub fn into_owned(&self) -> (r: String)
        ensures
            r@ == self.chars(),
    {
        match self {
            Ref::Borrow(b) => (*b).to_owned(),
            Ref::Scratch(s) => (*s).to_owned(),
        }
    }
}

/// Relies on std::str::from_utf8: `Ok` exactly for valid UTF-8, the same bytes.
#[verifier::external_body]
fn utf8<'a>(b: &'a [u8]) -> (r: Option<&'a str>)
    ensures
        r.is_some() <==> vstd::utf8::valid_utf8(b@),
        r matches Some(t) ==> t.spec_bytes() == b@,
{
    std::str::from_utf8(b).ok()
}

proof fn lemma_ascii_valid(b: Seq<u8>)
    requires
        forall|j: int| 0 <= j < b.len() ==> #[trigger] b[j] < 0x80,
    ensures
        vstd::utf8::valid_utf8(b),
{
    assert(b.subrange(0, 0) =~= Seq::<u8>::empty());
    assert(vstd::utf8::partial_valid_utf8(b, 0));
    assert forall|j: int| 0 <= 0 <= j < b.len() <= b.len() implies
        #[trigger] vstd::utf8::is_leading_byte_width_1(b[j]) by {}
    vstd::utf8::partial_valid_utf8_extend_ascii_block(b, 0, b.len() as int);
    assert(b.subrange(0, b.len() as int) =~= b);
}

/// Borrows an ASCII run of the input as text.
pub(crate) fn ascii_str<'a>(b: &'a [u8]) -> (r: &'a str)
    requires
        forall|j: int| 0 <= j < b@.len() ==> #[trigger] b@[j] < 0x80,
    ensures
        r.spec_bytes() == b@,
{
    proof {
        lemma_ascii_valid(b@);
    }
    match utf8(b) {
        Some(t) => t,
        None => {
            proof {
                assert(false);
            }
            ""
        },
    }
}

/// Line and column of the cursor.
pub struct Pos {
    pub line: usize,
    pub col: usize,
}

impl Pos {
    pub fn new() -> (r: Pos)
        ensures
            r.line == 1,
            r.col == 1,
    {
        Pos { line: 1, col: 1 }
    }

    pub fn full(&self, index: usize) -> (r: Position)
        ensures
            r == (Position { line: self.line, col: self.col, index }),
    {
        Position { line: self.line, col: self.col, index }
    }
}

/// A source of mayfig bytes with a cursor.
pub trait Read<'de> {
    /// All the input.
    spec fn input(&self) -> Seq<u8>;

    /// The index of the cursor.
    spec fn offset(&self) -> int;

    spec fn wf(&self) -> bool;

    proof fn lemma_wf(&self)
        requires
            self.wf(),
        ensures
            0 <= self.offset() <= self.input().len() < usize::MAX,
    ;

    /// The byte under the cursor.
    fn peek(&self) -> (r: Option<u8>)
        requires
            self.wf(),
        ensures
            r == peek_at(self.input(), self.offset()),
    ;

    /// The byte under the cursor, and the cursor moves past it.
    fn next(&mut self) -> (r: Option<u8>)
        requires
            old(self).wf(),
        ensures
            final(self).wf(),
            final(self).input() == old(self).input(),
            r == peek_at(old(self).input(), old(self).offset()),
            final(self).offset() == if r.is_some() {
                old(self).offset() + 1
            } else {
                old(self).offset()
            },
    ;

    /// Moves past the byte under the cursor, if any.
    fn discard(&mut self)
        requires
            old(self).wf(),
        ensures
            final(self).wf(),
            final(self).input() == old(self).input(),
            final(self).offset() == if old(self).offset() < old(self).input().len() {
                old(self).offset() + 1
            } else {
                old(self).offset()
            },
    ;

    /// Line, column and index of the cursor.
    fn position(&self) -> (r: Position)
        requires
            self.wf(),
        ensures
            r == position_at(self.input(), self.offset()),
    ;

    /// The character under the cursor, for error messages.
    fn peek_char(&self) -> (r: char)
        requires
            self.wf(),
            self.offset() < self.input().len(),
        ensures
            r == char_at(self.input(), self.offset()),
    ;

    /// Reads a number lexeme, always borrowed.
    fn num<'s>(&mut self, scratch: &'s mut Vec<u8>) -> (r: Result<Ref<'de, 's, str>, Error>)
        requires
            old(self).wf(),
        ensures
            final(self).wf(),
            final(self).input() == old(self).input(),
            final(self).offset() >= old(self).offset(),
            r.is_ok() == num_ok(old(self).input(), old(self).offset()),
            r matches Ok(t) ==> t is Borrow && t.bytes() == old(self).input().subrange(
                old(self).offset(),
                num_end(old(self).input(), old(self).offset()),
            ) && final(self).offset() == num_end(old(self).input(), old(self).offset()),
            r matches Err(e) ==> e == point_error(
                ErrorCode::ExpectedNumeric(
                    char_at(old(self).input(), num_end(old(self).input(), old(self).offset())),
                ),
                old(self).input(),
                num_end(old(self).input(), old(self).offset()),
            ),
    ;

    /// Reads a word of ASCII letters, digits and `_`, always borrowed.
    fn word<'s>(&mut self, scratch: &'s mut Vec<u8>) -> (r: Result<Ref<'de, 's, str>, Error>)
        requires
            old(self).wf(),
        ensures
            final(self).wf(),
            final(self).input() == old(self).input(),
            final(self).offset() >= old(self).offset(),
            r.is_ok() == word_ok(old(self).input(), old(self).offset()),
            r matches Ok(t) ==> t is Borrow && t.bytes() == old(self).input().subrange(
                old(self).offset(),
                scan_word(old(self).input(), old(self).offset()),
            ) && final(self).offset() == scan_word(old(self).input(), old(self).offset()),
            r matches Err(e) ==> e == point_error(
                ErrorCode::ExpectedAsciiAlphanumeric(
                    char_at(old(self).input(), scan_word(old(self).input(), old(self).offset())),
                ),
                old(self).input(),
                scan_word(old(self).input(), old(self).offset()),
            ),
    ;

    /// Reads a quoted string as bytes: borrowed from the input when it holds
    /// no escape, else rewritten into `scratch`.
    fn str_bytes<'s>(&mut self, scratch: &'s mut Vec<u8>) -> (r: Result<Ref<'de, 's, [u8]>, Error>)
        requires
            old(self).wf(),
            old(self).offset() < old(self).input().len(),
            old(self).input()[old(self).offset()] == 0x22 || old(self).input()[old(self).offset()]
                == 0x27,
        ensures
            final(self).wf(),
            final(self).input() == old(self).input(),
            final(self).offset() >= old(self).offset(),
            match str_lex(old(self).input(), old(self).offset()) {
                Ok((c, e, esc)) => r matches Ok(t) && t.bytes() == c && (t is Borrow <==> !esc)
                    && final(self).offset() == e,
                Err(err) => r matches Err(e2) && e2 == err,
            },
    ;

    /// Reads a quoted string as UTF-8 text.
    fn str<'s>(&mut self, scratch: &'s mut Vec<u8>) -> (r: Result<Ref<'de, 's, str>, Error>)
        requires
            old(self).wf(),
            old(self).offset() < old(self).input().len(),
            old(self).input()[old(self).offset()] == 0x22 || old(self).input()[old(self).offset()]
                == 0x27,
        ensures
            final(self).wf(),
            final(self).input() == old(self).input(),
            final(self).offset() >= old(self).offset(),
            match str_lex(old(self).input(), old(self).offset()) {
                Ok((c, e, esc)) => final(self).offset() == e && if vstd::utf8::valid_utf8(c) {
                    r matches Ok(t) && t.bytes() == c && (t is Borrow <==> !esc)
                } else {
                    r matches Err(e2) && e2 == Error { code: ErrorCode::InvalidUtf8, span: None }
                },
                Err(err) => r matches Err(e2) && e2 == err,
            },
    ;
}


/// The character that starts at byte `k`.
pub fn char_at_index(b: &[u8], k: usize) -> (r: char)
    requires
        k < b@.len(),
    ensures
        r == char_at(b@, k as int),
{
    broadcast use vstd::utf8::encode_utf8_decode_utf8;

    let c = b[k];
    if c < 0x80u8 {
        return c as char;
    }
    let w: usize = if 0xc0u8 <= c && c <= 0xdfu8 {
        2
    } else if 0xe0u8 <= c && c <= 0xefu8 {
        3
    } else if 0xf0u8 <= c && c <= 0xf7u8 {
        4
    } else {
        1
    };
    let e = if w <= b.len() - k {
        k + w
    } else {
        b.len()
    };
    let sub = vstd::slice::slice_subrange(b, k, e);
    match utf8(sub) {
        Some(t) => {
            if t.unicode_len() > 0 {
                t.get_char(0)
            } else {
                c as char
            }
        },
        None => c as char,
    }
}

/// ASCII whitespace: space, tab, carriage return, newline.
pub fn is_whitespace(ch: u8) -> (r: bool)
    ensures
        r == ws_spec(ch),
{
    ch == 0x20u8 || ch == 0x09u8 || ch == 0x0du8 || ch == 0x0au8
}

/// Whitespace that does not end the line.
pub fn is_whitespace_line(ch: u8) -> (r: bool)
    ensures
        r == ws_line_spec(ch),
{
    ch == 0x20u8 || ch == 0x09u8 || ch == 0x0du8
}

/// Whether `ch` ends an unquoted lexeme.
pub fn is_delimiter(ch: u8) -> (r: bool)
    ensures
        r == delim_spec(ch),
{
    is_whitespace(ch) || ch == 0x3du8 || ch == 0x2cu8 || ch == 0x7bu8 || ch == 0x7du8 || ch == 0x5bu8
        || ch == 0x5du8 || ch == 0x23u8
}

pub fn is_alpha(ch: u8) -> (r: bool)
    ensures
        r == alpha_spec(ch),
{
    (0x41u8 <= ch && ch <= 0x5au8) || (0x61u8 <= ch && ch <= 0x7au8)
}

pub fn is_digit(ch: u8) -> (r: bool)
    ensures
        r == digit_spec(ch),
{
    0x30u8 <= ch && ch <= 0x39u8
}

fn is_word_byte(ch: u8) -> (r: bool)
    ensures
        r == word_byte_spec(ch),
{
    is_alpha(ch) || is_digit(ch) || ch == 0x5fu8
}

fn is_numeric_byte(ch: u8) -> (r: bool)
    ensures
        r == numeric_byte_spec(ch),
{
    is_digit(ch) || ch == 0x2eu8 || ch == 0x65u8 || ch == 0x2du8 || ch == 0x2bu8
}

fn is_control(ch: u8) -> (r: bool)
    ensures
        r == control_spec(ch),
{
    ch < 0x20 || ch == 0x7f
}

/// Appends `src[start..end]` to `dst`.
fn push_range(dst: &mut Vec<u8>, src: &[u8], start: usize, end: usize)
    requires
        start <= end <= src@.len(),
    ensures
        final(dst)@ == old(dst)@ + src@.subrange(start as int, end as int),
{
    let mut k: usize = start;
    while k < end
        invariant
            start <= k <= end <= src@.len(),
            dst@ == old(dst)@ + src@.subrange(start as int, k as int),
        decreases end - k,
    {
        dst.push(src[k]);
        k += 1;
        assert(dst@ =~= old(dst)@ + src@.subrange(start as int, k as int));
    }
}

/// A reader over a byte slice.
pub struct SliceRead<'de> {
    pub slice: &'de [u8],
    pub index: usize,
    pub pos: Pos,
}

impl<'de> SliceRead<'de> {
    /// A reader at the start of `input`.
    pub fn new(input: &'de [u8]) -> (r: SliceRead<'de>)
        requires
            input@.len() < usize::MAX,
        ensures
            r.wf(),
            r.input() == input@,
            r.offset() == 0,
    {
        SliceRead { slice: input, index: 0, pos: Pos::new() }
    }

    /// Reads the letter after a backslash and pushes the byte it stands for.
    fn parse_escape(&mut self, scratch: &mut Vec<u8>) -> (r: Result<(), Error>)
        requires
            old(self).wf(),
        ensures
            final(self).wf(),
            final(self).input() == old(self).input(),
            final(self).offset() >= old(self).offset(),
            ({
                let s = old(self).input();
                let k = old(self).offset();
                if k >= s.len() {
                    r == Err::<(), Error>(eof_error()) && final(self).offset() == k
                } else {
                    final(self).offset() == k + 1 && match escape_spec(s[k]) {
                        Some(b) => r is Ok && final(scratch)@ == old(scratch)@.push(b),
                        None => r == Err::<(), Error>(
                            point_error(ErrorCode::UnknownEscape(char_at(s, k)), s, k),
                        ),
                    }
                }
            }),
    {
        let point = self.position();
        let next = match self.next() {
            Some(n) => n,
            None => {
                return Err(Error::eof());
            },
        };
        if next == 0x22u8 {
            scratch.push(0x22u8);
        } else if next == 0x27u8 {
            scratch.push(0x27u8);
        } else if next == 0x5cu8 {
            scratch.push(0x5cu8);
        } else if next == 0x2fu8 {
            scratch.push(0x2fu8);
        } else if next == 0x6eu8 {
            scratch.push(0x0au8);
        } else if next == 0x72u8 {
            scratch.push(0x0du8);
        } else if next == 0x74u8 {
            scratch.push(0x09u8);
        } else if next == 0x62u8 {
            scratch.push(0x08u8);
        } else if next == 0x66u8 {
            scratch.push(0x0cu8);
        } else {
            return Err(Error::with_point(ErrorCode::UnknownEscape(char_at_index(self.slice, self.index - 1)), point));
        }
        Ok(())
    }

    /// After a closing quote: the next byte, if any, must be a delimiter.
    fn check_delimiter(&self) -> (r: Result<(), Error>)
        requires
            self.wf(),
        ensures
            ({
                let s = self.input();
                let e = self.offset();
                if e < s.len() && !delim_spec(s[e]) {
                    r == Err::<(), Error>(
                        point_error(ErrorCode::ExpectedDelimiter(char_at(s, e)), s, e),
                    )
                } else {
                    r is Ok
                }
            }),
    {
        if self.index < self.slice.len() {
            let peek = self.slice[self.index];
            if !is_delimiter(peek) {
                let point = self.position();
                return Err(Error::with_point(ErrorCode::ExpectedDelimiter(char_at_index(self.slice, self.index)), point));
            }
        }
        Ok(())
    }
}

impl<'de> Read<'de> for SliceRead<'de> {
    open spec fn input(&self) -> Seq<u8> {
        self.slice@
    }

    open spec fn offset(&self) -> int {
        self.index as int
    }

    open spec fn wf(&self) -> bool {
        &&& self.index <= self.slice@.len() < usize::MAX
        &&& self.pos.line == line_at(self.slice@, self.index as int)
        &&& self.pos.col == col_at(self.slice@, self.index as int)
    }

    proof fn lemma_wf(&self) {
    }

    fn peek(&self) -> (r: Option<u8>) {
        if self.index < self.slice.len() {
            Some(self.slice[self.index])
        } else {
            None
        }
    }

    fn next(&mut self) -> (r: Option<u8>) {
        if self.index < self.slice.len() {
            let ch = self.slice[self.index];
            proof {
                lemma_line_col_bound(self.slice@, self.index as int);
            }
            self.index = self.index + 1;
            if ch == 0x0au8 {
                self.pos.line = self.pos.line + 1;
                self.pos.col = 1;
            } else {
                self.pos.col = self.pos.col + 1;
            }
            Some(ch)
        } else {
            None
        }
    }

    fn discard(&mut self) {
        let _ = self.next();
    }

    fn position(&self) -> (r: Position) {
        self.pos.full(self.index)
    }

    fn peek_char(&self) -> (r: char) {
        char_at_index(self.slice, self.index)
    }

    fn num<'s>(&mut self, scratch: &'s mut Vec<u8>) -> (r: Result<Ref<'de, 's, str>, Error>) {
        let ghost s = self.slice@;
        let start = self.index;
        let len = self.slice.len();
        if self.index < len && (self.slice[self.index] == 0x2du8 || self.slice[self.index] == 0x2bu8) {
            self.discard();
        }
        if self.index + 1 < len && self.slice[self.index] == 0x2eu8 && is_alpha(
            self.slice[self.index + 1],
        ) {
            self.discard();
            proof {
                lemma_scan_alpha(s, self.index as int);
            }
            while self.index < len && is_alpha(self.slice[self.index])
                invariant
                    self.wf(),
                    self.slice@ == s,
                    len == s.len(),
                    start < self.index <= len,
                    num_symbolic(s, start as int),
                    scan_alpha(s, self.index as int) == num_end(s, start as int),
                    forall|j: int| start <= j < self.index ==> #[trigger] s[j] < 0x80,
                decreases len - self.index,
            {
                self.discard();
            }
            let b = vstd::slice::slice_subrange(self.slice, start, self.index);
            return Ok(Ref::Borrow(ascii_str(b)));
        }
        proof {
            lemma_scan_numeric(s, self.index as int);
        }
        while self.index < len && is_numeric_byte(self.slice[self.index])
            invariant
                self.wf(),
                self.slice@ == s,
                len == s.len(),
                start <= self.index <= len,
                !num_symbolic(s, start as int),
                scan_numeric(s, self.index as int) == num_end(s, start as int),
                forall|j: int| start <= j < self.index ==> #[trigger] s[j] < 0x80,
            decreases len - self.index,
        {
            self.discard();
        }
        if self.index < len && !is_delimiter(self.slice[self.index]) {
            let point = self.position();
            let code = ErrorCode::ExpectedNumeric(char_at_index(self.slice, self.index));
            return Err(Error::with_point(code, point));
        }
        let b = vstd::slice::slice_subrange(self.slice, start, self.index);
        Ok(Ref::Borrow(ascii_str(b)))
    }

    fn word<'s>(&mut self, scratch: &'s mut Vec<u8>) -> (r: Result<Ref<'de, 's, str>, Error>) {
        let ghost s = self.slice@;
        let start = self.index;
        let len = self.slice.len();
        proof {
            lemma_scan_word(s, self.index as int);
        }
        while self.index < len && is_word_byte(self.slice[self.index])
            invariant
                self.wf(),
                self.slice@ == s,
                len == s.len(),
                start <= self.index <= len,
                scan_word(s, self.index as int) == scan_word(s, start as int),
                forall|j: int| start <= j < self.index ==> #[trigger] s[j] < 0x80,
            decreases len - self.index,
        {
            self.discard();
        }
        if self.index < len && !is_delimiter(self.slice[self.index]) {
            let point = self.position();
            let code = ErrorCode::ExpectedAsciiAlphanumeric(char_at_index(self.slice, self.index));
            return Err(Error::with_point(code, point));
        }
        let b = vstd::slice::slice_subrange(self.slice, start, self.index);
        Ok(Ref::Borrow(ascii_str(b)))
    }

    #[verifier::rlimit(30)]
    fn str_bytes<'s>(&mut self, scratch: &'s mut Vec<u8>) -> (r: Result<Ref<'de, 's, [u8]>, Error>) {
        let ghost s = self.slice@;
        let ghost i0 = self.index as int;
        scratch.clear();
        let quote = self.slice[self.index];
        self.discard();
        let len = self.slice.len();
        let mut start = self.index;
        loop
            invariant
                self.wf(),
                self.slice@ == s,
                len == s.len(),
                s == old(self).slice@,
                0 <= i0 < s.len(),
                i0 == old(self).index,
                i0 + 1 <= start <= self.index <= len,
                quote == s[i0],
                str_scan(s, quote, self.index as int, scratch@ + s.subrange(start as int, self.index as int), scratch@.len() > 0)
                    == str_scan(s, quote, i0 + 1, seq![], false),
                scratch@.len() == 0 ==> start == i0 + 1,
            decreases len - self.index,
        {
            if self.index >= len {
                return Err(Error::eof());
            }
            let peek = self.slice[self.index];
            if peek == quote {
                if scratch.len() == 0 {
                    let b = vstd::slice::slice_subrange(self.slice, start, self.index);
                    assert(scratch@ + s.subrange(start as int, self.index as int) =~= b@);
                    self.discard();
                    self.check_delimiter()?;
                    return Ok(Ref::Borrow(b));
                } else {
                    push_range(scratch, self.slice, start, self.index);
                    self.discard();
                    self.check_delimiter()?;
                    return Ok(Ref::Scratch(scratch.as_slice()));
                }
            }
            if is_control(peek) {
                let point = self.position();
                return Err(Error::with_point(ErrorCode::UnescapedControl(char_at_index(self.slice, self.index)), point));
            } else if peek == 0x5cu8 {
                push_range(scratch, self.slice, start, self.index);
                self.discard();
                let ghost before = scratch@;
                self.parse_escape(scratch)?;
                assert(scratch@ + s.subrange(self.index as int, self.index as int) =~= scratch@);
                start = self.index;
            } else {
                self.discard();
                assert(scratch@ + s.subrange(start as int, self.index as int) =~= (scratch@
                    + s.subrange(start as int, self.index - 1)).push(peek));
            }
        }
    }

    fn str<'s>(&mut self, scratch: &'s mut Vec<u8>) -> (r: Result<Ref<'de, 's, str>, Error>) {
        let r = self.str_bytes(scratch)?;
        match r {
            Ref::Borrow(v) => match utf8(v) {
                Some(t) => Ok(Ref::Borrow(t)),
                None => Err(Error::new(ErrorCode::InvalidUtf8)),
            },
            Ref::Scratch(v) => match utf8(v) {
                Some(t) => Ok(Ref::Scratch(t)),
                None => Err(Error::new(ErrorCode::InvalidUtf8)),
            },
        }
    }
}


/// A reader over UTF-8 text.
pub struct StrRead<'de>(pub SliceRead<'de>);

impl<'de> StrRead<'de> {
    /// A reader at the start of `input`.
    pub fn new(input: &'de str) -> (r: StrRead<'de>)
        requires
            input.spec_bytes().len() < usize::MAX,
        ensures
            r.wf(),
            r.input() == input.spec_bytes(),
            r.offset() == 0,
    {
        StrRead(SliceRead::new(input.as_bytes()))
    }
}

impl<'de> Read<'de> for StrRead<'de> {
    open spec fn input(&self) -> Seq<u8> {
        self.0.input()
    }

    open spec fn offset(&self) -> int {
        self.0.offset()
    }

    open spec fn wf(&self) -> bool {
        self.0.wf()
    }

    proof fn lemma_wf(&self) {
    }

    fn peek(&self) -> (r: Option<u8>) {
        self.0.peek()
    }

    fn next(&mut self) -> (r: Option<u8>) {
        self.0.next()
    }

    fn discard(&mut self) {
        self.0.discard()
    }

    fn position(&self) -> (r: Position) {
        self.0.position()
    }

    fn peek_char(&self) -> (r: char) {
        self.0.peek_char()
    }

    fn num<'s>(&mut self, scratch: &'s mut Vec<u8>) -> (r: Result<Ref<'de, 's, str>, Error>) {
        self.0.num(scratch)
    }

    fn word<'s>(&mut self, scratch: &'s mut Vec<u8>) -> (r: Result<Ref<'de, 's, str>, Error>) {
        self.0.word(scratch)
    }

    fn str_bytes<'s>(&mut self, scratch: &'s mut Vec<u8>) -> (r: Result<Ref<'de, 's, [u8]>, Error>) {
        self.0.str_bytes(scratch)
    }

    fn str<'s>(&mut self, scratch: &'s mut Vec<u8>) -> (r: Result<Ref<'de, 's, str>, Error>) {
        self.0.str(scratch)
    }
}

} // verus!
