//! The encoder: writes mayfig text for the calls of a producer, one call per
//! value or composite step.

use vstd::prelude::*;
use crate::error::{Error, ErrorCode};
use crate::read::{alpha_spec, digit_spec, is_alpha, is_digit};
use vstd::string::StringSliceAdditionalSpecFns;

verus! {

/// The decimal digits of `n`.
pub open spec fn decimal(n: nat) -> Seq<u8>
    decreases n,
{
    if n < 10 {
        seq![(0x30 + n) as u8]
    } else {
        decimal(n / 10).push((0x30 + n % 10) as u8)
    }
}

/// The decimal text of an integer: `-` before a negative one.
pub open spec fn int_text(v: int) -> Seq<u8> {
    if v < 0 {
        seq![0x2du8] + decimal((-v) as nat)
    } else {
        decimal(v as nat)
    }
}

/// Relies on itoa::Buffer::format: the decimal text of an integer, with `-`
/// before a negative one and nothing else.
#[verifier::external_body]
fn format_int(v: i128) -> (r: Vec<u8>)
    ensures
        r@ == int_text(v as int),
{
    let mut buffer = itoa::Buffer::new();
    buffer.format(v).as_bytes().to_vec()
}

/// Relies on char::encode_utf8: the UTF-8 encoding of one character.
#[verifier::external_body]
fn char_utf8(c: char) -> (r: Vec<u8>)
    ensures
        r@ == vstd::utf8::encode_utf8(seq![c]),
{
    let mut buf = [0u8; 4];
    c.encode_utf8(&mut buf).as_bytes().to_vec()
}

/// What one byte of a string becomes between quotes.
pub open spec fn escape_byte(c: u8) -> Seq<u8> {
    if c == 0x22 {
        seq![0x5cu8, 0x22u8]
    } else if c == 0x5c {
        seq![0x5cu8, 0x5cu8]
    } else if c == 0x0a {
        seq![0x5cu8, 0x6eu8]
    } else if c == 0x0d {
        seq![0x5cu8, 0x72u8]
    } else if c == 0x09 {
        seq![0x5cu8, 0x74u8]
    } else if c == 0x08 {
        seq![0x5cu8, 0x62u8]
    } else if c == 0x0c {
        seq![0x5cu8, 0x66u8]
    } else {
        seq![c]
    }
}

pub open spec fn escape_bytes(b: Seq<u8>) -> Seq<u8>
    decreases b.len(),
{
    if b.len() == 0 {
        seq![]
    } else {
        escape_bytes(b.drop_last()) + escape_byte(b.last())
    }
}

/// A string in double quotes, with its escapes.
pub open spec fn quoted(b: Seq<u8>) -> Seq<u8> {
    seq![0x22u8] + escape_bytes(b) + seq![0x22u8]
}

/// A key that is written without quotes: an ASCII letter, then ASCII letters
/// and digits.
pub open spec fn bare_key(b: Seq<u8>) -> bool {
    b.len() > 0 && alpha_spec(b[0]) && forall|j: int| 1 <= j < b.len() ==> (alpha_spec(
        #[trigger] b[j],
    ) || digit_spec(b[j]))
}

/// What a key is written as.
pub open spec fn key_text(b: Seq<u8>) -> Seq<u8> {
    if bare_key(b) {
        b
    } else {
        quoted(b)
    }
}

/// `n` copies of `unit`.
pub open spec fn repeat(unit: Seq<u8>, n: nat) -> Seq<u8>
    decreases n,
{
    if n == 0 {
        seq![]
    } else {
        repeat(unit, (n - 1) as nat) + unit
    }
}

pub open spec fn lit_true() -> Seq<u8> {
    seq![0x74u8, 0x72u8, 0x75u8, 0x65u8]
}

pub open spec fn lit_false() -> Seq<u8> {
    seq![0x66u8, 0x61u8, 0x6cu8, 0x73u8, 0x65u8]
}

/// ` = `
pub open spec fn lit_assign() -> Seq<u8> {
    seq![0x20u8, 0x3du8, 0x20u8]
}

/// `[ `
pub open spec fn lit_seq_open() -> Seq<u8> {
    seq![0x5bu8, 0x20u8]
}

/// ` {` and a newline
pub open spec fn lit_map_open() -> Seq<u8> {
    seq![0x20u8, 0x7bu8, 0x0au8]
}

fn push_all(dst: &mut Vec<u8>, src: &[u8])
    ensures
        final(dst)@ == old(dst)@ + src@,
{
    let mut k: usize = 0;
    while k < src.len()
        invariant
            k <= src@.len(),
            dst@ == old(dst)@ + src@.subrange(0, k as int),
        decreases src@.len() - k,
    {
        dst.push(src[k]);
        k += 1;
        assert(dst@ =~= old(dst)@ + src@.subrange(0, k as int));
    }
    assert(src@.subrange(0, src@.len() as int) =~= src@);
}

/// Whether `b` is written as a bare key.
pub fn is_bare_key(b: &[u8]) -> (r: bool)
    ensures
        r == bare_key(b@),
{
    if b.len() == 0 || !is_alpha(b[0]) {
        return false;
    }
    let mut j: usize = 1;
    while j < b.len()
        invariant
            1 <= j <= b@.len(),
            forall|i: int| 1 <= i < j ==> (alpha_spec(#[trigger] b@[i]) || digit_spec(b@[i])),
        decreases b@.len() - j,
    {
        if !(is_alpha(b[j]) || is_digit(b[j])) {
            return false;
        }
        j += 1;
    }
    true
}

/// A mayfig encoder that writes into a byte buffer.
pub struct Serializer {
    /// how many braced maps are open
    pub indent_level: usize,
    /// what one level of indentation is written as
    pub indent: Vec<u8>,
    pub writer: Vec<u8>,
}

impl Serializer {
    /// The text written so far.
    pub open spec fn out(&self) -> Seq<u8> {
        self.writer@
    }

    /// An encoder that indents with one tab.
    pub fn new() -> (r: Serializer)
        ensures
            r.indent_level == 0,
            r.indent@ == seq![0x09u8],
            r.out() == Seq::<u8>::empty(),
    {
        let mut indent: Vec<u8> = Vec::new();
        indent.push(0x09u8);
        Serializer { indent_level: 0, indent, writer: Vec::new() }
    }

    /// An encoder that indents with `indent`.
    pub fn with_indent(indent: &[u8]) -> (r: Serializer)
        ensures
            r.indent_level == 0,
            r.indent@ == indent@,
            r.out() == Seq::<u8>::empty(),
    {
        let mut unit: Vec<u8> = Vec::new();
        push_all(&mut unit, indent);
        Serializer { indent_level: 0, indent: unit, writer: Vec::new() }
    }

    /// The text written so far.
    pub fn output(&self) -> (r: &[u8])
        ensures
            r@ == self.out(),
    {
        self.writer.as_slice()
    }

    /// Writes the indentation of the current level.
    pub fn indent(&mut self)
        ensures
            final(self).out() == old(self).out() + repeat(old(self).indent@, old(self).indent_level as nat),
            final(self).indent_level == old(self).indent_level,
            final(self).indent@ == old(self).indent@,
    {
        let mut i: usize = 0;
        while i < self.indent_level
            invariant
                i <= self.indent_level,
                self.indent_level == old(self).indent_level,
                self.indent@ == old(self).indent@,
                self.out() == old(self).out() + repeat(self.indent@, i as nat),
            decreases self.indent_level - i,
        {
            push_all(&mut self.writer, self.indent.as_slice());
            i += 1;
            assert(self.out() =~= old(self).out() + repeat(self.indent@, i as nat));
        }
    }

    /// `true` or `false`.
    pub fn serialize_bool(&mut self, v: bool)
        ensures
            final(self).out() == old(self).out() + if v {
                lit_true()
            } else {
                lit_false()
            },
            final(self).indent_level == old(self).indent_level,
            final(self).indent@ == old(self).indent@,
    {
        if v {
            let t = [0x74u8, 0x72u8, 0x75u8, 0x65u8];
            assert(t@ =~= lit_true());
            push_all(&mut self.writer, t.as_slice());
        } else {
            let f = [0x66u8, 0x61u8, 0x6cu8, 0x73u8, 0x65u8];
            assert(f@ =~= lit_false());
            push_all(&mut self.writer, f.as_slice());
        }
    }

    /// An integer in decimal.
    pub fn serialize_i128(&mut self, v: i128)
        ensures
            final(self).out() == old(self).out() + int_text(v as int),
            final(self).indent_level == old(self).indent_level,
            final(self).indent@ == old(self).indent@,
    {
        let text = format_int(v);
        push_all(&mut self.writer, text.as_slice());
    }

    /// An unsigned integer in decimal.
    pub fn serialize_u64(&mut self, v: u64)
        ensures
            final(self).out() == old(self).out() + int_text(v as int),
            final(self).indent_level == old(self).indent_level,
            final(self).indent@ == old(self).indent@,
    {
        self.serialize_i128(v as i128)
    }

    /// A signed integer in decimal.
    pub fn serialize_i64(&mut self, v: i64)
        ensures
            final(self).out() == old(self).out() + int_text(v as int),
            final(self).indent_level == old(self).indent_level,
            final(self).indent@ == old(self).indent@,
    {
        self.serialize_i128(v as i128)
    }

    /// A float, given as its text (from a float formatter, or as it was read).
    pub fn serialize_float_text(&mut self, text: &str)
        ensures
            final(self).out() == old(self).out() + text.spec_bytes(),
            final(self).indent_level == old(self).indent_level,
            final(self).indent@ == old(self).indent@,
    {
        push_all(&mut self.writer, text.as_bytes());
    }

    /// A string in double quotes, with escapes for `"`, `\`, newline, carriage
    /// return, tab, backspace and form feed.
    pub fn serialize_str(&mut self, v: &str)
        ensures
            final(self).out() == old(self).out() + quoted(v.spec_bytes()),
            final(self).indent_level == old(self).indent_level,
            final(self).indent@ == old(self).indent@,
    {
        self.serialize_str_bytes(v.as_bytes())
    }

    /// A character, as a string of one character.
    pub fn serialize_char(&mut self, c: char)
        ensures
            final(self).out() == old(self).out() + quoted(vstd::utf8::encode_utf8(seq![c])),
            final(self).indent_level == old(self).indent_level,
            final(self).indent@ == old(self).indent@,
    {
        let b = char_utf8(c);
        self.serialize_str_bytes(b.as_slice())
    }

    /// Bytes in double quotes, with escapes as for strings.
    pub fn serialize_str_bytes(&mut self, b: &[u8])
        ensures
            final(self).out() == old(self).out() + quoted(b@),
            final(self).indent_level == old(self).indent_level,
            final(self).indent@ == old(self).indent@,
    {
        self.writer.push(0x22u8);
        let mut j: usize = 0;
        while j < b.len()
            invariant
                j <= b@.len(),
                self.indent_level == old(self).indent_level,
                self.indent@ == old(self).indent@,
                self.out() == old(self).out() + seq![0x22u8] + escape_bytes(b@.subrange(0, j as int)),
            decreases b@.len() - j,
        {
            let c = b[j];
            let ghost before = self.out();
            if c == 0x22u8 {
                self.writer.push(0x5cu8);
                self.writer.push(0x22u8);
            } else if c == 0x5cu8 {
                self.writer.push(0x5cu8);
                self.writer.push(0x5cu8);
            } else if c == 0x0au8 {
                self.writer.push(0x5cu8);
                self.writer.push(0x6eu8);
            } else if c == 0x0du8 {
                self.writer.push(0x5cu8);
                self.writer.push(0x72u8);
            } else if c == 0x09u8 {
                self.writer.push(0x5cu8);
                self.writer.push(0x74u8);
            } else if c == 0x08u8 {
                self.writer.push(0x5cu8);
                self.writer.push(0x62u8);
            } else if c == 0x0cu8 {
                self.writer.push(0x5cu8);
                self.writer.push(0x66u8);
            } else {
                self.writer.push(c);
            }
            assert(self.out() =~= before + escape_byte(c));
            assert(b@.subrange(0, j + 1).drop_last() =~= b@.subrange(0, j as int));
            j += 1;
            assert(self.out() =~= old(self).out() + seq![0x22u8] + escape_bytes(
                b@.subrange(0, j as int),
            ));
        }
        self.writer.push(0x22u8);
        assert(b@.subrange(0, b@.len() as int) =~= b@);
        assert(self.out() =~= old(self).out() + quoted(b@));
    }

    /// `None` cannot be written.
    pub fn serialize_none(&self) -> (r: Result<(), Error>)
        ensures
            r matches Err(e) && e.code == ErrorCode::UnsupportedNone && e.span.is_none(),
    {
        Err(Error::new(ErrorCode::UnsupportedNone))
    }

    /// Unit values cannot be written.
    pub fn serialize_unit(&self) -> (r: Result<(), Error>)
        ensures
            r matches Err(e) && e.code == ErrorCode::UnsupportedUnit && e.span.is_none(),
    {
        Err(Error::new(ErrorCode::UnsupportedUnit))
    }

    /// Opens a sequence: `[ `.
    pub fn serialize_seq(&mut self)
        ensures
            final(self).out() == old(self).out() + lit_seq_open(),
            final(self).indent_level == old(self).indent_level,
            final(self).indent@ == old(self).indent@,
    {
        let t = [0x5bu8, 0x20u8];
        assert(t@ =~= lit_seq_open());
        push_all(&mut self.writer, t.as_slice());
    }

    /// Ends an element of a sequence: a space.
    pub fn end_element(&mut self)
        ensures
            final(self).out() == old(self).out().push(0x20u8),
            final(self).indent_level == old(self).indent_level,
            final(self).indent@ == old(self).indent@,
    {
        self.writer.push(0x20u8);
    }

    /// Closes a sequence: `]`.
    pub fn end_seq(&mut self)
        ensures
            final(self).out() == old(self).out().push(0x5du8),
            final(self).indent_level == old(self).indent_level,
            final(self).indent@ == old(self).indent@,
    {
        self.writer.push(0x5du8);
    }

    /// Opens a tuple variant: the quoted tag, then ` [ `.
    pub fn serialize_tuple_variant(&mut self, variant: &str)
        ensures
            final(self).out() == old(self).out() + quoted(variant.spec_bytes()) + seq![0x20u8]
                + lit_seq_open(),
            final(self).indent_level == old(self).indent_level,
            final(self).indent@ == old(self).indent@,
    {
        self.serialize_str(variant);
        self.writer.push(0x20u8);
        self.serialize_seq();
        assert(self.out() =~= old(self).out() + quoted(variant.spec_bytes()) + seq![0x20u8]
            + lit_seq_open());
    }

    /// Opens a map: nothing at the top level, else ` {` and a newline.
    pub fn serialize_map(&mut self)
        ensures
            final(self).out() == old(self).out() + if old(self).indent_level == 0 {
                Seq::<u8>::empty()
            } else {
                lit_map_open()
            },
            final(self).indent_level == old(self).indent_level,
            final(self).indent@ == old(self).indent@,
    {
        if self.indent_level != 0 {
            let t = [0x20u8, 0x7bu8, 0x0au8];
            assert(t@ =~= lit_map_open());
            push_all(&mut self.writer, t.as_slice());
        } else {
            assert(self.out() =~= old(self).out() + Seq::<u8>::empty());
        }
    }

    /// Opens a struct variant: the quoted tag, then a map one level deeper.
    pub fn serialize_struct_variant(&mut self, variant: &str)
        requires
            old(self).indent_level < usize::MAX,
        ensures
            final(self).out() == old(self).out() + quoted(variant.spec_bytes()) + lit_map_open(),
            final(self).indent_level == old(self).indent_level + 1,
            final(self).indent@ == old(self).indent@,
    {
        self.serialize_str(variant);
        self.indent_level = self.indent_level + 1;
        self.serialize_map();
    }

    /// Ends an entry of a map: a newline.
    pub fn end_entry(&mut self)
        ensures
            final(self).out() == old(self).out().push(0x0au8),
            final(self).indent_level == old(self).indent_level,
            final(self).indent@ == old(self).indent@,
    {
        self.writer.push(0x0au8);
    }

    /// Closes a map: below the top level, one level up, its indentation and
    /// `}`; at the top level nothing.
    pub fn end_map(&mut self)
        ensures
            old(self).indent_level == 0 ==> *final(self) == *old(self),
            old(self).indent_level > 0 ==> final(self).indent_level == old(self).indent_level - 1
                && final(self).out() == old(self).out() + repeat(
                old(self).indent@,
                (old(self).indent_level - 1) as nat,
            ).push(0x7du8),
            final(self).indent@ == old(self).indent@,
    {
        if self.indent_level > 0 {
            self.indent_level = self.indent_level - 1;
            self.indent();
            self.writer.push(0x7du8);
        }
    }
}

} // verus!
