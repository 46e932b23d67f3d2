//! Map keys: the decoder narrowed to what may stand as a key.

use vstd::prelude::*;
use crate::access::SeqAcc;
use crate::de::{
    Deserializer, NumberToken, fails_as, ident_spec, is_number_start, lemma_skip_any, num_matches,
    number_spec,
    number_start, peek_line_spec, seq_open_spec, skip_any, skip_line,
};
use crate::error::{Error, ErrorCode, Span};
use crate::read::{Read, alpha_spec, char_at, eof_error, is_alpha, point_error};
use crate::tagged::payload_line_spec;

verus! {

/// Opening the payload of a newtype variant in a key: `[` on the same line,
/// then the inner value.
pub open spec fn key_newtype_open_spec(s: Seq<u8>, k: int) -> Result<int, Error> {
    match peek_line_spec(s, k) {
        Err(x) => Err(x),
        Ok(None) => Err(eof_error()),
        Ok(Some(c)) => {
            let l = skip_line(s, k);
            if c != 0x5b {
                Err(point_error(ErrorCode::ExpectedSeq(char_at(s, l)), s, l))
            } else {
                let a = skip_any(s, l + 1, false);
                if a >= s.len() {
                    Err(eof_error())
                } else {
                    Ok(a)
                }
            }
        },
    }
}

/// Closing the payload of a newtype variant in a key: `]` after whitespace.
pub open spec fn key_newtype_close_spec(s: Seq<u8>, k: int) -> Result<int, Error> {
    let a = skip_any(s, k, false);
    if a >= s.len() {
        Err(eof_error())
    } else if s[a] != 0x5d {
        Err(point_error(ErrorCode::ExpectedSeqEnd(char_at(s, a)), s, a))
    } else {
        Ok(a + 1)
    }
}

/// Opening a tagged key at `k`: a letter or a quote must stand there.
pub open spec fn key_enum_open_spec(s: Seq<u8>, k: int) -> Result<(), Error> {
    if k >= s.len() {
        Err(eof_error())
    } else if !(alpha_spec(s[k]) || s[k] == 0x22 || s[k] == 0x27) {
        Err(point_error(ErrorCode::ExpectedEnum(char_at(s, k)), s, k))
    } else {
        Ok(())
    }
}

/// What a key of unknown type turns out to be, by its first byte.
pub enum KeyToken {
    /// a sequence, whose `[` was consumed
    Sequence(SeqAcc),
    Number(NumberToken),
    /// a string or bare identifier
    Str(String),
    /// an identifier followed by `[` on its line: the tag of a key variant
    Tagged(TaggedEnumKeyAcc),
}

/// The error for a kind of value that cannot be a key.
pub open spec fn is_unsupported_key(r: Error, kind: Seq<char>) -> bool {
    r.code matches ErrorCode::UnsupportedMapKey(k) && k@ == kind && r.span.is_none()
}

/// Reads map keys through a decoder.
pub struct MapKey {}

impl MapKey {
    pub fn new() -> (r: MapKey) {
        MapKey {  }
    }

    /// A string key: quoted, or a bare identifier.
    pub fn deserialize_str<'de, R: Read<'de>>(&self, de: &mut Deserializer<R>) -> (r: Result<
        (String, Span),
        Error,
    >)
        requires
            old(de).wf(),
        ensures
            old(de).moved(final(de)),
            match ident_spec(old(de).input(), old(de).at()) {
                Ok((c, e, esc)) => r matches Ok((x, sp)) && vstd::utf8::encode_utf8(x@) == c
                    && final(de).at() == e,
                Err(x) => r matches Err(y) && y == x,
            },
    {
        let (t, span) = de.identifier()?;
        Ok((t.into_owned(), span))
    }

    /// A key of unknown type: `[` a sequence, a digit, `.`, `+` or `-` a
    /// number, `{` refused, anything else an identifier, which is the tag of a
    /// key variant when `[` follows on its line.
    #[verifier::rlimit(30)]
    pub fn deserialize_any<'de, R: Read<'de>>(&self, de: &mut Deserializer<R>) -> (r: Result<
        KeyToken,
        Error,
    >)
        requires
            old(de).wf(),
        ensures
            old(de).advanced(final(de)),
            ({
                let s = old(de).input();
                let a = skip_any(s, old(de).at(), false);
                if a >= s.len() {
                    r == Err::<KeyToken, Error>(eof_error())
                } else if s[a] == 0x5b {
                    r matches Ok(KeyToken::Sequence(_)) && final(de).at() == a + 1 && final(de).indent
                        == old(de).indent + 1
                } else if s[a] == 0x7b {
                    r matches Err(e) && is_unsupported_key(e, "map"@)
                } else if number_start(s[a]) {
                    final(de).indent == old(de).indent && match number_spec(s, a) {
                        Ok((kind, t, e)) => r matches Ok(KeyToken::Number(n)) && num_matches(
                            n,
                            kind,
                            t,
                        ) && final(de).at() == e,
                        Err(f) => r matches Err(y) && fails_as(y, f),
                    }
                } else {
                    final(de).indent == old(de).indent && match ident_spec(s, a) {
                        Ok((c, e, esc)) => final(de).at() == skip_line(s, e) && if peek_line_spec(
                            s,
                            e,
                        ) == Ok::<Option<u8>, Error>(Some(0x5bu8)) {
                            r matches Ok(KeyToken::Tagged(acc)) && acc.tag matches Some(t)
                                && vstd::utf8::encode_utf8(t@) == c
                        } else {
                            r matches Ok(KeyToken::Str(t)) && vstd::utf8::encode_utf8(t@) == c
                        },
                        Err(x) => r matches Err(y) && y == x,
                    }
                }
            }),
    {
        proof {
            de.read.lemma_wf();
            lemma_skip_any(de.input(), de.at(), false);
        }
        let peek = match de.peek_any() {
            Some(p) => p,
            None => {
                return Err(Error::eof());
            },
        };
        if peek == 0x5bu8 {
            let acc = de.deserialize_seq()?;
            Ok(KeyToken::Sequence(acc))
        } else if peek == 0x7bu8 {
            Err(Error::new(ErrorCode::UnsupportedMapKey("map".to_owned())))
        } else if is_number_start(peek) {
            let (n, _) = de.deserialize_number()?;
            Ok(KeyToken::Number(n))
        } else {
            let (t, _) = de.identifier()?;
            let ident = t.into_owned();
            match de.peek_line() {
                Ok(Some(p)) => {
                    if p == 0x5bu8 {
                        return Ok(KeyToken::Tagged(TaggedEnumKeyAcc::with_tag(ident)));
                    }
                },
                _ => {},
            }
            Ok(KeyToken::Str(ident))
        }
    }

    /// Bytes cannot be a key.
    pub fn deserialize_bytes(&self) -> (r: Result<(), Error>)
        ensures
            r matches Err(e) && is_unsupported_key(e, "bytes"@),
    {
        Err(Error::new(ErrorCode::UnsupportedMapKey("bytes".to_owned())))
    }

    /// A map cannot be a key.
    pub fn deserialize_map(&self) -> (r: Result<(), Error>)
        ensures
            r matches Err(e) && is_unsupported_key(e, "map"@),
    {
        Err(Error::new(ErrorCode::UnsupportedMapKey("map".to_owned())))
    }

    /// A struct cannot be a key.
    pub fn deserialize_struct(&self) -> (r: Result<(), Error>)
        ensures
            r matches Err(e) && is_unsupported_key(e, "struct"@),
    {
        Err(Error::new(ErrorCode::UnsupportedMapKey("struct".to_owned())))
    }

    /// Opens a tagged key: its tag is a bare identifier or a quoted string.
    pub fn deserialize_enum<'de, R: Read<'de>>(&self, de: &Deserializer<R>) -> (r: Result<
        TaggedEnumKeyAcc,
        Error,
    >)
        requires
            de.wf(),
        ensures
            match key_enum_open_spec(de.input(), de.at()) {
                Ok(()) => r matches Ok(acc) && acc.tag.is_none(),
                Err(x) => r matches Err(y) && y == x,
            },
    {
        proof {
            de.read.lemma_wf();
        }
        let peek = match de.read.peek() {
            Some(p) => p,
            None => {
                return Err(Error::eof());
            },
        };
        if is_alpha(peek) || peek == 0x22u8 || peek == 0x27u8 {
            Ok(TaggedEnumKeyAcc::new())
        } else {
            let point = de.read.position();
            Err(Error::with_point(ErrorCode::ExpectedEnum(de.read.peek_char()), point))
        }
    }
}

/// Walks a tagged key: a tag, then a payload in `[ ... ]` on the same line.
/// The tag may have been read already.
pub struct TaggedEnumKeyAcc {
    pub tag: Option<String>,
}

impl TaggedEnumKeyAcc {
    pub fn new() -> (r: TaggedEnumKeyAcc)
        ensures
            r.tag.is_none(),
    {
        TaggedEnumKeyAcc { tag: None }
    }

    /// For a tag that was read already.
    pub fn with_tag(tag: String) -> (r: TaggedEnumKeyAcc)
        ensures
            r.tag == Some(tag),
    {
        TaggedEnumKeyAcc { tag: Some(tag) }
    }

    /// The tag: the one held, else the identifier at the cursor.
    pub fn variant<'de, R: Read<'de>>(&mut self, de: &mut Deserializer<R>) -> (r: Result<
        String,
        Error,
    >)
        requires
            old(de).wf(),
        ensures
            old(de).moved(final(de)),
            final(self).tag.is_none(),
            match old(self).tag {
                Some(t) => r == Ok::<String, Error>(t) && final(de).at() == old(de).at(),
                None => match ident_spec(old(de).input(), old(de).at()) {
                    Ok((c, e, esc)) => r matches Ok(x) && vstd::utf8::encode_utf8(x@) == c
                        && final(de).at() == e,
                    Err(x) => r matches Err(y) && y == x,
                },
            },
    {
        match self.tag.take() {
            Some(t) => Ok(t),
            None => {
                let (t, _) = de.identifier()?;
                Ok(t.into_owned())
            },
        }
    }

    /// Opens the payload of a newtype variant: consumes `[` and moves to the
    /// inner value.
    pub fn newtype_variant<'de, R: Read<'de>>(&self, de: &mut Deserializer<R>) -> (r: Result<
        (),
        Error,
    >)
        requires
            old(de).wf(),
        ensures
            old(de).advanced(final(de)),
            match key_newtype_open_spec(old(de).input(), old(de).at()) {
                Ok(e) => r is Ok && final(de).at() == e && final(de).indent == old(de).indent + 1,
                Err(x) => r == Err::<(), Error>(x),
            },
    {
        let next = match de.peek_line()? {
            Some(p) => p,
            None => {
                return Err(Error::eof());
            },
        };
        proof {
            de.read.lemma_wf();
        }
        if next != 0x5bu8 {
            let point = de.read.position();
            return Err(Error::with_point(ErrorCode::ExpectedSeq(de.read.peek_char()), point));
        }
        de.read.discard();
        de.indent = de.indent + 1;
        match de.peek_any() {
            Some(_) => Ok(()),
            None => Err(Error::eof()),
        }
    }

    /// Closes the payload of a newtype variant: its `]`.
    pub fn newtype_end<'de, R: Read<'de>>(&self, de: &mut Deserializer<R>) -> (r: Result<
        (),
        Error,
    >)
        requires
            old(de).wf(),
        ensures
            old(de).advanced(final(de)),
            match key_newtype_close_spec(old(de).input(), old(de).at()) {
                Ok(e) => r is Ok && final(de).at() == e && final(de).indent == if old(de).indent
                    > 0 {
                    (old(de).indent - 1) as usize
                } else {
                    0
                },
                Err(x) => r == Err::<(), Error>(x),
            },
    {
        proof {
            de.read.lemma_wf();
            lemma_skip_any(de.input(), de.at(), false);
        }
        let peek = match de.peek_any() {
            Some(p) => p,
            None => {
                return Err(Error::eof());
            },
        };
        proof {
            de.read.lemma_wf();
        }
        if peek != 0x5du8 {
            let point = de.read.position();
            return Err(Error::with_point(ErrorCode::ExpectedSeqEnd(de.read.peek_char()), point));
        }
        de.read.discard();
        if de.indent > 0 {
            de.indent = de.indent - 1;
        }
        Ok(())
    }

    /// Opens the payload of a tuple variant: `[` on the same line.
    pub fn tuple_variant<'de, R: Read<'de>>(&self, de: &mut Deserializer<R>) -> (r: Result<
        SeqAcc,
        Error,
    >)
        requires
            old(de).wf(),
        ensures
            old(de).advanced(final(de)),
            match payload_line_spec(old(de).input(), old(de).at()) {
                Ok(l) => match seq_open_spec(old(de).input(), l) {
                    Ok(()) => r is Ok && final(de).at() == l + 1 && final(de).indent == old(de).indent + 1,
                    Err(x) => r matches Err(y) && y == x,
                },
                Err(x) => r matches Err(y) && y == x,
            },
    {
        match de.peek_line()? {
            Some(_) => {},
            None => {
                return Err(Error::eof());
            },
        }
        de.deserialize_seq()
    }

    /// A struct variant cannot be a key.
    pub fn struct_variant(&self) -> (r: Result<(), Error>)
        ensures
            r matches Err(e) && is_unsupported_key(e, "struct"@),
    {
        Err(Error::new(ErrorCode::UnsupportedMapKey("struct".to_owned())))
    }
}

} // verus!
