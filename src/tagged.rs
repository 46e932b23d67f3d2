//! Tagged values: a quoted tag, then a payload in `[ ... ]` or `{ ... }` on
//! the same line, or none.

use vstd::prelude::*;
use crate::access::{MapAccess, SeqAcc};
use crate::de::{
    Deserializer, ident_spec, lemma_skip_sep, map_open_spec, peek_line_spec, seq_close_spec,
    seq_open_spec, skip_any, skip_line,
};
use crate::error::{Error, ErrorCode};
use crate::read::{Read, char_at, eof_error, point_error};

verus! {

/// Opening the payload of a newtype variant at `k`: on the same line, `[`
/// (consumed, the cursor moves to the inner value) or `{` (left for the inner
/// map). On success: whether the payload is a map, and where the cursor stops.
pub open spec fn newtype_open_spec(s: Seq<u8>, k: int) -> Result<(bool, int), Error> {
    match peek_line_spec(s, k) {
        Err(x) => Err(x),
        Ok(None) => Err(eof_error()),
        Ok(Some(c)) => {
            let l = skip_line(s, k);
            if c == 0x5b {
                Ok((false, skip_any(s, l + 1, false)))
            } else if c == 0x7b {
                Ok((true, l))
            } else {
                Err(point_error(ErrorCode::ExpectedSeq(char_at(s, l)), s, l))
            }
        },
    }
}

/// Something must follow on the line before a tuple or struct payload; then
/// the payload opens at the position returned.
pub open spec fn payload_line_spec(s: Seq<u8>, k: int) -> Result<int, Error> {
    match peek_line_spec(s, k) {
        Err(x) => Err(x),
        Ok(None) => Err(eof_error()),
        Ok(Some(_)) => Ok(skip_line(s, k)),
    }
}

/// Reads a tag through the decoder: an identifier (a quoted tag for values).
fn read_tag<'de, R: Read<'de>>(de: &mut Deserializer<R>) -> (r: Result<String, Error>)
    requires
        old(de).wf(),
    ensures
        old(de).moved(final(de)),
        match ident_spec(old(de).input(), old(de).at()) {
            Ok((c, e, esc)) => r matches Ok(x) && vstd::utf8::encode_utf8(x@) == c && final(de).at() == e,
            Err(x) => r matches Err(y) && y == x,
        },
{
    let (t, _) = de.identifier()?;
    Ok(t.into_owned())
}

/// Consumes the line before a tuple or struct payload.
fn payload_line<'de, R: Read<'de>>(de: &mut Deserializer<R>) -> (r: Result<(), Error>)
    requires
        old(de).wf(),
    ensures
        old(de).moved(final(de)),
        match payload_line_spec(old(de).input(), old(de).at()) {
            Ok(e) => r is Ok && final(de).at() == e,
            Err(x) => r == Err::<(), Error>(x),
        },
{
    match de.peek_line()? {
        Some(_) => Ok(()),
        None => Err(Error::eof()),
    }
}

/// Walks a tagged value; the tag may have been read already.
pub struct TaggedEnumValueAcc {
    pub tag: Option<String>,
}

impl TaggedEnumValueAcc {
    pub fn new() -> (r: TaggedEnumValueAcc)
        ensures
            r.tag.is_none(),
    {
        TaggedEnumValueAcc { tag: None }
    }

    /// For a tag that was read already.
    pub fn with_tag(tag: String) -> (r: TaggedEnumValueAcc)
        ensures
            r.tag == Some(tag),
    {
        TaggedEnumValueAcc { tag: Some(tag) }
    }

    /// The tag: the one held, else the one read at the cursor.
    pub fn variant<'de, R: Read<'de>>(&mut self, de: &mut Deserializer<R>) -> (r: Result<
        String,
        Error,
    >)
        requires
            old(de).wf(),
        ensures
            old(de).moved(final(de)),
            final(self).tag.is_none(),
            match old(self).tag {
                Some(t) => r == Ok::<String, Error>(t) && final(de).at() == old(de).at(),
                None => match ident_spec(old(de).input(), old(de).at()) {
                    Ok((c, e, esc)) => r matches Ok(x) && vstd::utf8::encode_utf8(x@) == c
                        && final(de).at() == e,
                    Err(x) => r matches Err(y) && y == x,
                },
            },
    {
        match self.tag.take() {
            Some(t) => Ok(t),
            None => read_tag(de),
        }
    }

    /// Opens the payload of a newtype variant; `[ ... ]` around a single
    /// value, or a `{ ... }` map.
    pub fn newtype_variant<'de, R: Read<'de>>(&self, de: &mut Deserializer<R>) -> (r: Result<
        TaggedValue,
        Error,
    >)
        requires
            old(de).wf(),
        ensures
            old(de).advanced(final(de)),
            match newtype_open_spec(old(de).input(), old(de).at()) {
                Ok((is_map, e)) => r matches Ok(tv) && tv.is_map == is_map && final(de).at() == e
                    && final(de).indent == if is_map {
                    old(de).indent
                } else {
                    (old(de).indent + 1) as usize
                },
                Err(x) => r matches Err(y) && y == x,
            },
    {
        let next = match de.peek_line()? {
            Some(p) => p,
            None => {
                return Err(Error::eof());
            },
        };
        proof {
            de.read.lemma_wf();
        }
        if next == 0x5bu8 {
            de.read.discard();
            de.indent = de.indent + 1;
            let _ = de.peek_any();
            Ok(TaggedValue { is_map: false })
        } else if next == 0x7bu8 {
            Ok(TaggedValue { is_map: true })
        } else {
            let point = de.read.position();
            Err(Error::with_point(ErrorCode::ExpectedSeq(de.read.peek_char()), point))
        }
    }

    /// Opens the payload of a tuple variant: `[` on the same line.
    pub fn tuple_variant<'de, R: Read<'de>>(&self, de: &mut Deserializer<R>) -> (r: Result<
        SeqAcc,
        Error,
    >)
        requires
            old(de).wf(),
        ensures
            old(de).advanced(final(de)),
            match payload_line_spec(old(de).input(), old(de).at()) {
                Ok(l) => match seq_open_spec(old(de).input(), l) {
                    Ok(()) => r is Ok && final(de).at() == l + 1 && final(de).indent == old(de).indent + 1,
                    Err(x) => r matches Err(y) && y == x,
                },
                Err(x) => r matches Err(y) && y == x,
            },
    {
        payload_line(de)?;
        de.deserialize_seq()
    }

    /// Opens the payload of a struct variant: `{` on the same line.
    pub fn struct_variant<'de, R: Read<'de>>(&self, de: &mut Deserializer<R>) -> (r: Result<
        MapAccess,
        Error,
    >)
        requires
            old(de).wf(),
        ensures
            old(de).advanced(final(de)),
            match payload_line_spec(old(de).input(), old(de).at()) {
                Ok(l) => match map_open_spec(old(de).input(), l, old(de).indent as int) {
                    Ok((braced, e)) => r matches Ok(m) && m.is_braced() == braced && final(de).at() == e && final(de).indent == old(de).indent + 1,
                    Err(x) => r matches Err(y) && y == x,
                },
                Err(x) => r matches Err(y) && y == x,
            },
    {
        payload_line(de)?;
        de.deserialize_map()
    }
}

/// The payload of a newtype variant while its inner value is read.
pub struct TaggedValue {
    /// the payload is a `{ ... }` map rather than `[ ... ]`
    pub is_map: bool,
}

impl TaggedValue {
    /// Closes the payload: for `[ ... ]`, commas and whitespace, then `]`.
    pub fn end<'de, R: Read<'de>>(self, de: &mut Deserializer<R>) -> (r: Result<(), Error>)
        requires
            old(de).wf(),
        ensures
            old(de).advanced(final(de)),
            if self.is_map {
                r is Ok && *final(de) == *old(de)
            } else {
                match seq_close_spec(old(de).input(), old(de).at()) {
                    Ok(e) => r is Ok && final(de).at() == e && final(de).indent == if old(de).indent > 0 {
                        (old(de).indent - 1) as usize
                    } else {
                        0
                    },
                    Err(x) => r == Err::<(), Error>(x),
                }
            },
    {
        if self.is_map {
            return Ok(());
        }
        proof {
            de.read.lemma_wf();
            lemma_skip_sep(de.input(), de.at(), false);
        }
        de.discard_commata();
        let peek = match de.peek_any() {
            Some(p) => p,
            None => {
                return Err(Error::eof());
            },
        };
        proof {
            de.read.lemma_wf();
        }
        if peek != 0x5du8 {
            let point = de.read.position();
            return Err(Error::with_point(ErrorCode::ExpectedSeqEnd(de.read.peek_char()), point));
        }
        de.read.discard();
        if de.indent > 0 {
            de.indent = de.indent - 1;
        }
        Ok(())
    }
}

} // verus!
