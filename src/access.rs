//! The small state machines through which a consumer walks a sequence or a
//! map: each step takes the decoder it works on.

use vstd::prelude::*;
use crate::de::{
    Deserializer, peek_line_spec, peek_newline_spec, seq_close_spec, seq_next_spec, skip_any,
    skip_line, skip_nl, lemma_skip_any, lemma_skip_line, lemma_skip_nl, lemma_skip_sep,
};
use crate::error::{Error, ErrorCode, Position};
use crate::read::{Read, char_at, eof_error, point_error};

verus! {

/// Whether a key follows in the top-level map, and where the cursor stops.
pub open spec fn top_key_spec(s: Seq<u8>, k: int, first: bool) -> (Result<bool, Error>, int) {
    if first {
        let a = skip_any(s, k, false);
        (Ok(a < s.len()), a)
    } else {
        (
            match peek_newline_spec(s, k) {
                Ok(None) => Ok(false),
                Ok(Some(_)) => Ok(true),
                Err(x) => Err(x),
            },
            skip_nl(s, k, false, false).0,
        )
    }
}

/// Whether a key follows in a braced map (else its `}` was consumed), and
/// where the cursor stops.
pub open spec fn braced_key_spec(s: Seq<u8>, k: int, first: bool) -> (Result<bool, Error>, int) {
    let l = skip_line(s, k);
    if l < s.len() && s[l] == 0x7d {
        (Ok(false), l + 1)
    } else if first {
        let a = skip_any(s, l, false);
        if a >= s.len() {
            (Err(eof_error()), a)
        } else if s[a] == 0x7d {
            (Ok(false), a + 1)
        } else {
            (Ok(true), a)
        }
    } else {
        let e = skip_nl(s, l, false, false).0;
        match peek_newline_spec(s, l) {
            Err(x) => (Err(x), e),
            Ok(None) => (Err(eof_error()), e),
            Ok(Some(c)) => if c == 0x7d {
                (Ok(false), e + 1)
            } else {
                (Ok(true), e)
            },
        }
    }
}

/// The separator between a key and its value: `=` (the value follows on the
/// line), or a `{` or `[` that the value, a map or a sequence, consumes
/// itself. On success, where the value starts.
pub open spec fn value_sep_spec(s: Seq<u8>, k: int) -> Result<int, Error> {
    match peek_line_spec(s, k) {
        Err(x) => Err(x),
        Ok(None) => Err(eof_error()),
        Ok(Some(c)) => {
            let l = skip_line(s, k);
            if c == 0x3d {
                match peek_line_spec(s, l + 1) {
                    Err(x) => Err(x),
                    Ok(None) => Err(eof_error()),
                    Ok(Some(_)) => Ok(skip_line(s, l + 1)),
                }
            } else if c != 0x7b && c != 0x5b {
                Err(point_error(ErrorCode::ExpectedValue(char_at(s, l)), s, l))
            } else {
                Ok(l)
            }
        },
    }
}

/// Walks the elements of a sequence whose `[` was consumed.
pub struct SeqAcc {
    /// where the sequence starts
    pub start: Position,
}

impl SeqAcc {
    pub fn new(start: Position) -> (r: SeqAcc)
        ensures
            r.start == start,
    {
        SeqAcc { start }
    }

    /// Whether another element follows; commas and whitespace before it are
    /// skipped, and the cursor stops on it or on `]`.
    pub fn next_element<'de, R: Read<'de>>(&self, de: &mut Deserializer<R>) -> (r: Result<
        bool,
        Error,
    >)
        requires
            old(de).wf(),
        ensures
            old(de).moved(final(de)),
            final(de).at() == crate::de::skip_sep(old(de).input(), old(de).at(), false),
            r == seq_next_spec(old(de).input(), old(de).at()),
    {
        proof {
            de.read.lemma_wf();
            lemma_skip_sep(de.input(), de.at(), false);
        }
        de.discard_commata();
        match de.peek_any() {
            Some(p) => Ok(p != 0x5du8),
            None => Err(Error::eof()),
        }
    }

    /// Closes the sequence: after commas and whitespace, consumes its `]`.
    pub fn end<'de, R: Read<'de>>(self, de: &mut Deserializer<R>) -> (r: Result<(), Error>)
        requires
            old(de).wf(),
        ensures
            old(de).advanced(final(de)),
            match seq_close_spec(old(de).input(), old(de).at()) {
                Ok(e) => r is Ok && final(de).at() == e && final(de).indent == if old(de).indent
                    > 0 {
                    (old(de).indent - 1) as usize
                } else {
                    0
                },
                Err(x) => r == Err::<(), Error>(x),
            },
    {
        proof {
            de.read.lemma_wf();
            lemma_skip_sep(de.input(), de.at(), false);
        }
        de.discard_commata();
        let next = match de.peek_any() {
            Some(p) => p,
            None => {
                return Err(Error::eof());
            },
        };
        proof {
            de.read.lemma_wf();
        }
        let seq_end = de.read.position();
        if next != 0x5du8 {
            return Err(Error::with_point(ErrorCode::ExpectedSeqEnd(de.read.peek_char()), seq_end));
        }
        de.read.discard();
        if de.indent > 0 {
            de.indent = de.indent - 1;
        }
        Ok(())
    }
}

/// Consumes the separator between a key and its value.
fn value_sep<'de, R: Read<'de>>(de: &mut Deserializer<R>) -> (r: Result<(), Error>)
    requires
        old(de).wf(),
    ensures
        old(de).moved(final(de)),
        match value_sep_spec(old(de).input(), old(de).at()) {
            Ok(e) => r is Ok && final(de).at() == e,
            Err(x) => r == Err::<(), Error>(x),
        },
{
    let peek = match de.peek_line()? {
        Some(p) => p,
        None => {
            return Err(Error::eof());
        },
    };
    proof {
        de.read.lemma_wf();
    }
    if peek == 0x3du8 {
        de.read.discard();
    } else if peek != 0x7bu8 && peek != 0x5bu8 {
        let point = de.read.position();
        return Err(Error::with_point(ErrorCode::ExpectedValue(de.read.peek_char()), point));
    }
    match de.peek_line()? {
        Some(_) => Ok(()),
        None => Err(Error::eof()),
    }
}

/// Walks the entries of the top-level map, which has no braces and one entry
/// per line.
pub struct TopMapAcc {
    pub is_first: bool,
}

impl TopMapAcc {
    pub fn new() -> (r: TopMapAcc)
        ensures
            r.is_first,
    {
        TopMapAcc { is_first: true }
    }

    /// Whether another key follows (on a later line than the last entry);
    /// the cursor stops on it. At the end the map is closed.
    pub fn next_key<'de, R: Read<'de>>(&mut self, de: &mut Deserializer<R>) -> (r: Result<
        bool,
        Error,
    >)
        requires
            old(de).wf(),
        ensures
            old(de).advanced(final(de)),
            !final(self).is_first,
            r == top_key_spec(old(de).input(), old(de).at(), old(self).is_first).0,
            final(de).at() == top_key_spec(old(de).input(), old(de).at(), old(self).is_first).1,
            final(de).indent == if r == Ok::<bool, Error>(false) && old(de).indent > 0 {
                (old(de).indent - 1) as usize
            } else {
                old(de).indent
            },
    {
        proof {
            de.read.lemma_wf();
            lemma_skip_any(de.input(), de.at(), false);
        }
        let peek = if self.is_first {
            self.is_first = false;
            de.peek_any()
        } else {
            de.peek_newline()?
        };
        match peek {
            Some(_) => Ok(true),
            None => {
                if de.indent > 0 {
                    de.indent = de.indent - 1;
                }
                Ok(false)
            },
        }
    }
}

/// Walks the entries of a braced map whose `{` was consumed.
pub struct MapAcc {
    pub is_first: bool,
}

impl MapAcc {
    pub fn new() -> (r: MapAcc)
        ensures
            r.is_first,
    {
        MapAcc { is_first: true }
    }

    /// Whether another key follows (on a later line than the last entry);
    /// the cursor stops on it. A `}` closes the map and is consumed.
    pub fn next_key<'de, R: Read<'de>>(&mut self, de: &mut Deserializer<R>) -> (r: Result<
        bool,
        Error,
    >)
        requires
            old(de).wf(),
        ensures
            old(de).advanced(final(de)),
            !final(self).is_first,
            r == braced_key_spec(old(de).input(), old(de).at(), old(self).is_first).0,
            r is Ok ==> final(de).at() == braced_key_spec(
                old(de).input(),
                old(de).at(),
                old(self).is_first,
            ).1,
            final(de).indent == if r == Ok::<bool, Error>(false) && old(de).indent > 0 {
                (old(de).indent - 1) as usize
            } else {
                old(de).indent
            },
    {
        let first = self.is_first;
        self.is_first = false;
        let ghost s = de.input();
        proof {
            de.read.lemma_wf();
            lemma_skip_line(s, de.at());
            lemma_skip_any(s, skip_line(s, de.at()), false);
            lemma_skip_nl(s, skip_line(s, de.at()), false, false);
        }
        match de.peek_line() {
            Ok(Some(p)) => {
                if p == 0x7du8 {
                    de.read.discard();
                    if de.indent > 0 {
                        de.indent = de.indent - 1;
                    }
                    return Ok(false);
                }
            },
            _ => {},
        }
        let peek = if first {
            de.peek_any()
        } else {
            de.peek_newline()?
        };
        let p = match peek {
            Some(p) => p,
            None => {
                return Err(Error::eof());
            },
        };
        if p == 0x7du8 {
            de.read.discard();
            if de.indent > 0 {
                de.indent = de.indent - 1;
            }
            return Ok(false);
        }
        Ok(true)
    }
}

/// A map being walked: the top-level one or a braced one.
pub enum MapAccess {
    Top(TopMapAcc),
    Braced(MapAcc),
}

impl MapAccess {
    pub open spec fn is_braced(&self) -> bool {
        self is Braced
    }

    pub open spec fn is_first(&self) -> bool {
        match *self {
            MapAccess::Top(t) => t.is_first,
            MapAccess::Braced(m) => m.is_first,
        }
    }

    /// The spec of `next_key`, by kind of map.
    pub open spec fn key_spec(&self, s: Seq<u8>, k: int) -> (Result<bool, Error>, int) {
        match *self {
            MapAccess::Top(t) => top_key_spec(s, k, t.is_first),
            MapAccess::Braced(m) => braced_key_spec(s, k, m.is_first),
        }
    }

    /// Whether another key follows; the cursor stops on it. When none does,
    /// the map is closed (a braced map's `}` consumed).
    pub fn next_key<'de, R: Read<'de>>(&mut self, de: &mut Deserializer<R>) -> (r: Result<
        bool,
        Error,
    >)
        requires
            old(de).wf(),
        ensures
            old(de).advanced(final(de)),
            !final(self).is_first(),
            final(self).is_braced() == old(self).is_braced(),
            r == old(self).key_spec(old(de).input(), old(de).at()).0,
            r is Ok ==> final(de).at() == old(self).key_spec(old(de).input(), old(de).at()).1,
            final(de).indent == if r == Ok::<bool, Error>(false) && old(de).indent > 0 {
                (old(de).indent - 1) as usize
            } else {
                old(de).indent
            },
    {
        match self {
            MapAccess::Top(t) => t.next_key(de),
            MapAccess::Braced(m) => m.next_key(de),
        }
    }

    /// Consumes the separator between the key just read and its value.
    pub fn next_value<'de, R: Read<'de>>(&self, de: &mut Deserializer<R>) -> (r: Result<
        (),
        Error,
    >)
        requires
            old(de).wf(),
        ensures
            old(de).moved(final(de)),
            match value_sep_spec(old(de).input(), old(de).at()) {
                Ok(e) => r is Ok && final(de).at() == e,
                Err(x) => r == Err::<(), Error>(x),
            },
    {
        value_sep(de)
    }
}

} // verus!
