//! What goes wrong when reading or writing mayfig text, and where.

use vstd::prelude::*;

verus! {

/// A place in the input: 1-indexed line and column, 0-indexed byte index.
#[derive(Debug, Clone, Copy, PartialEq, Eq, Structural, PartialOrd, Ord)]
pub struct Position {
    pub line: usize,
    pub col: usize,
    pub index: usize,
}

/// Lexicographic order on (line, col, index), the order that `Ord` derives.
pub open spec fn pos_lt(a: Position, b: Position) -> bool {
    a.line < b.line || (a.line == b.line && (a.col < b.col || (a.col == b.col && a.index
        < b.index)))
}

/// The region an error points at.
#[derive(Debug, Clone, Copy, PartialEq, Eq, Structural)]
pub enum Span {
    /// a single point
    Point(Position),
    /// everything from the first position up to the second
    Span(Position, Position),
}

pub open spec fn cmp_pos_spec(a: Position, b: Position) -> std::cmp::Ordering {
    if pos_lt(a, b) {
        std::cmp::Ordering::Less
    } else if a == b {
        std::cmp::Ordering::Equal
    } else {
        std::cmp::Ordering::Greater
    }
}

/// The order on spans: a point that lies within a range compares equal to it,
/// everything else goes by (start, end).
pub open spec fn span_cmp_spec(a: Span, b: Span) -> std::cmp::Ordering {
    match (a, b) {
        (Span::Point(p1), Span::Point(p2)) => cmp_pos_spec(p1, p2),
        (Span::Span(s1, e1), Span::Span(s2, e2)) => if s1 == s2 {
            cmp_pos_spec(e1, e2)
        } else {
            cmp_pos_spec(s1, s2)
        },
        (Span::Point(p), Span::Span(s, e)) => if pos_lt(p, s) {
            std::cmp::Ordering::Less
        } else if pos_lt(e, p) {
            std::cmp::Ordering::Greater
        } else {
            std::cmp::Ordering::Equal
        },
        (Span::Span(s, e), Span::Point(p)) => if pos_lt(p, s) {
            std::cmp::Ordering::Greater
        } else if pos_lt(e, p) {
            std::cmp::Ordering::Less
        } else {
            std::cmp::Ordering::Equal
        },
    }
}

/// Whether a position lies within a span (a point contains only itself).
pub open spec fn span_contains_spec(s: Span, p: Position) -> bool {
    match s {
        Span::Point(q) => q == p,
        Span::Span(a, b) => !pos_lt(p, a) && !pos_lt(b, p),
    }
}

fn cmp_pos(a: &Position, b: &Position) -> (r: std::cmp::Ordering)
    ensures
        r == cmp_pos_spec(*a, *b),
{
    if a.line < b.line || (a.line == b.line && (a.col < b.col || (a.col == b.col && a.index
        < b.index))) {
        std::cmp::Ordering::Less
    } else if a.line == b.line && a.col == b.col && a.index == b.index {
        std::cmp::Ordering::Equal
    } else {
        std::cmp::Ordering::Greater
    }
}

fn pos_less(a: &Position, b: &Position) -> (r: bool)
    ensures
        r == pos_lt(*a, *b),
{
    a.line < b.line || (a.line == b.line && (a.col < b.col || (a.col == b.col && a.index
        < b.index)))
}

impl Span {
    /// The byte range that the span covers: one byte for a point.
    pub fn range(&self) -> (r: std::ops::Range<usize>)
        requires
            self matches Span::Point(p) ==> p.index < usize::MAX,
        ensures
            match *self {
                Span::Point(p) => r.start == p.index && r.end == p.index + 1,
                Span::Span(a, b) => r.start == a.index && r.end == b.index,
            },
    {
        match self {
            Span::Point(pos) => pos.index..(pos.index + 1),
            Span::Span(pos1, pos2) => pos1.index..pos2.index,
        }
    }

    /// Compares two spans; a point within a range is equal to it.
    pub fn cmp(&self, other: &Span) -> (r: std::cmp::Ordering)
        ensures
            r == span_cmp_spec(*self, *other),
    {
        match (self, other) {
            (Span::Point(p1), Span::Point(p2)) => cmp_pos(p1, p2),
            (Span::Span(s1, e1), Span::Span(s2, e2)) => {
                let first = cmp_pos(s1, s2);
                match first {
                    std::cmp::Ordering::Equal => cmp_pos(e1, e2),
                    _ => first,
                }
            },
            (Span::Point(p), Span::Span(s, e)) => {
                if pos_less(p, s) {
                    std::cmp::Ordering::Less
                } else if pos_less(e, p) {
                    std::cmp::Ordering::Greater
                } else {
                    std::cmp::Ordering::Equal
                }
            },
            (Span::Span(s, e), Span::Point(p)) => {
                if pos_less(p, s) {
                    std::cmp::Ordering::Greater
                } else if pos_less(e, p) {
                    std::cmp::Ordering::Less
                } else {
                    std::cmp::Ordering::Equal
                }
            },
        }
    }

    /// Whether `pos` lies within this span.
    pub fn contains(&self, pos: &Position) -> (r: bool)
        ensures
            r == span_contains_spec(*self, *pos),
    {
        match self {
            Span::Point(q) => q.line == pos.line && q.col == pos.col && q.index == pos.index,
            Span::Span(a, b) => !pos_less(pos, a) && !pos_less(b, pos),
        }
    }
}

/// What went wrong.
#[derive(Debug, Clone, PartialEq, Eq)]
pub enum ErrorCode {
    /// the input ended where more was needed
    Eof,
    /// a string is not valid UTF-8
    InvalidUtf8,
    /// an unknown escape sequence in a string
    UnknownEscape(char),
    /// a control character that is not escaped in a string
    UnescapedControl(char),
    /// something else stands on the line where a new line was needed
    ExpectedNewline(char),
    /// the line ends where a value was needed
    UnexpectedNewline,
    /// a word that is not a boolean
    InvalidBool(String),
    /// a number that does not fit the requested type
    InvalidNum(String),
    /// a word where no word may stand
    UnexpectedWord(String),
    /// expected a quote `"` or `'`
    ExpectedQuote(char),
    /// expected `=` or `{` after a key
    ExpectedValue(char),
    /// expected `{`
    ExpectedMap(char),
    /// expected `[`
    ExpectedSeq(char),
    /// expected `]`
    ExpectedSeqEnd(char),
    /// expected a quoted tag
    ExpectedEnum(char),
    /// expected a quoted string or `[`
    ExpectedBytes(char),
    /// a quoted string is followed by something other than a delimiter
    ExpectedDelimiter(char),
    /// a number holds something other than a numeric character
    ExpectedNumeric(char),
    /// expected an ASCII letter
    ExpectedAsciiAlphabetic(char),
    /// a word holds something other than ASCII letters, digits and `_`
    ExpectedAsciiAlphanumeric(char),
    /// unit values do not exist in mayfig
    UnsupportedUnit,
    /// NaN does not exist in mayfig
    UnsupportedNaN,
    /// `None` cannot be written
    UnsupportedNone,
    /// this kind of value cannot be a map key
    UnsupportedMapKey(String),
    /// an error raised by the consumer or producer of the values
    Custom(String),
}

/// An error code with the place where it was found, if known.
#[derive(Debug)]
pub struct Error {
    pub code: ErrorCode,
    pub span: Option<Span>,
}

impl Error {
    /// The code of this error.
    pub fn code(&self) -> (r: &ErrorCode)
        ensures
            *r == self.code,
    {
        &self.code
    }

    /// Where the error was found; only decoding records this.
    pub fn span(&self) -> (r: Option<Span>)
        ensures
            r == self.span,
    {
        self.span
    }

    /// An error without a place.
    pub fn new(code: ErrorCode) -> (r: Error)
        ensures
            r.code == code,
            r.span.is_none(),
    {
        Error { code, span: None }
    }

    /// An error at one point.
    pub fn with_point(code: ErrorCode, point: Position) -> (r: Error)
        ensures
            r.code == code,
            r.span == Some(Span::Point(point)),
    {
        Error { code, span: Some(Span::Point(point)) }
    }

    /// An error over a span.
    pub fn with_span(code: ErrorCode, span: Span) -> (r: Error)
        ensures
            r.code == code,
            r.span == Some(span),
    {
        Error { code, span: Some(span) }
    }

    /// An error raised by a consumer or producer, with its message.
    pub fn custom(msg: String) -> (r: Error)
        ensures
            r.code == ErrorCode::Custom(msg),
            r.span.is_none(),
    {
        Error { code: ErrorCode::Custom(msg), span: None }
    }

    /// The end of input error, without a place.
    pub fn eof() -> (r: Error)
        ensures
            r.code == ErrorCode::Eof,
            r.span.is_none(),
    {
        Error { code: ErrorCode::Eof, span: None }
    }
}

/// Gives `err` the span `span` unless it already has one: the innermost place wins.
pub fn add_span(err: Error, span: Span) -> (r: Error)
    ensures
        r.code == err.code,
        r.span == (match err.span {
            Some(s) => Some(s),
            None => Some(span),
        }),
{
    let mut err = err;
    err.span = match err.span {
        Some(s) => Some(s),
        None => Some(span),
    };
    err
}

} // verus!
