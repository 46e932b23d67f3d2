//! How map keys, map values and the payloads of newtype variants are written.

use vstd::prelude::*;
use crate::error::{Error, ErrorCode};
use crate::ser::{
    Serializer, int_text, is_bare_key, key_text, lit_assign, lit_map_open, lit_seq_open, quoted,
};
use vstd::string::StringSliceAdditionalSpecFns;

verus! {

/// Whether `r` is the error for a kind of value that cannot be a key.
pub open spec fn unsupported_key(r: Result<(), Error>, kind: Seq<char>) -> bool {
    r matches Err(e) && e.code matches ErrorCode::UnsupportedMapKey(k) && k@ == kind
        && e.span.is_none()
}

fn write_assign(ser: &mut Serializer)
    ensures
        final(ser).out() == old(ser).out() + lit_assign(),
        final(ser).indent_level == old(ser).indent_level,
        final(ser).indent@ == old(ser).indent@,
{
    ser.writer.push(0x20u8);
    ser.writer.push(0x3du8);
    ser.writer.push(0x20u8);
    assert(ser.out() =~= old(ser).out() + lit_assign());
}

/// Writes map keys.
pub struct MapKeySerializer {}

impl MapKeySerializer {
    pub fn new() -> (r: MapKeySerializer) {
        MapKeySerializer {  }
    }

    /// A string key: bare when it is an ASCII letter followed by ASCII letters
    /// and digits, else quoted.
    pub fn serialize_str(&self, ser: &mut Serializer, v: &str)
        ensures
            final(ser).out() == old(ser).out() + key_text(v.spec_bytes()),
            final(ser).indent_level == old(ser).indent_level,
            final(ser).indent@ == old(ser).indent@,
    {
        let b = v.as_bytes();
        if is_bare_key(b) {
            ser.serialize_float_text(v);
        } else {
            ser.serialize_str_bytes(b);
        }
    }

    /// An integer key.
    pub fn serialize_i128(&self, ser: &mut Serializer, v: i128)
        ensures
            final(ser).out() == old(ser).out() + int_text(v as int),
            final(ser).indent_level == old(ser).indent_level,
            final(ser).indent@ == old(ser).indent@,
    {
        ser.serialize_i128(v)
    }

    /// A boolean key.
    pub fn serialize_bool(&self, ser: &mut Serializer, v: bool)
        ensures
            final(ser).out() == old(ser).out() + if v {
                crate::ser::lit_true()
            } else {
                crate::ser::lit_false()
            },
            final(ser).indent_level == old(ser).indent_level,
            final(ser).indent@ == old(ser).indent@,
    {
        ser.serialize_bool(v)
    }

    /// A sequence key opens with `[ `.
    pub fn serialize_seq(&self, ser: &mut Serializer)
        ensures
            final(ser).out() == old(ser).out() + lit_seq_open(),
            final(ser).indent_level == old(ser).indent_level,
            final(ser).indent@ == old(ser).indent@,
    {
        ser.serialize_seq()
    }

    /// A tuple variant key: its tag as a key, then ` [ `.
    pub fn serialize_tuple_variant(&self, ser: &mut Serializer, variant: &str)
        ensures
            final(ser).out() == old(ser).out() + key_text(variant.spec_bytes()) + seq![0x20u8]
                + lit_seq_open(),
            final(ser).indent_level == old(ser).indent_level,
            final(ser).indent@ == old(ser).indent@,
    {
        self.serialize_str(ser, variant);
        ser.writer.push(0x20u8);
        ser.serialize_seq();
        assert(ser.out() =~= old(ser).out() + key_text(variant.spec_bytes()) + seq![0x20u8]
            + lit_seq_open());
    }

    /// Bytes cannot be a key.
    pub fn serialize_bytes(&self) -> (r: Result<(), Error>)
        ensures
            unsupported_key(r, "bytes"@),
    {
        Err(Error::new(ErrorCode::UnsupportedMapKey("bytes".to_owned())))
    }

    /// A map cannot be a key.
    pub fn serialize_map(&self) -> (r: Result<(), Error>)
        ensures
            unsupported_key(r, "map"@),
    {
        Err(Error::new(ErrorCode::UnsupportedMapKey("map".to_owned())))
    }

    /// A struct cannot be a key.
    pub fn serialize_struct(&self) -> (r: Result<(), Error>)
        ensures
            unsupported_key(r, "struct"@),
    {
        Err(Error::new(ErrorCode::UnsupportedMapKey("struct".to_owned())))
    }
}

/// Writes map values with their separator from the key.
pub struct MapValSerializer {}

impl MapValSerializer {
    pub fn new() -> (r: MapValSerializer) {
        MapValSerializer {  }
    }

    /// ` = ` and a boolean.
    pub fn serialize_bool(&self, ser: &mut Serializer, v: bool)
        ensures
            final(ser).out() == old(ser).out() + lit_assign() + if v {
                crate::ser::lit_true()
            } else {
                crate::ser::lit_false()
            },
            final(ser).indent_level == old(ser).indent_level,
            final(ser).indent@ == old(ser).indent@,
    {
        write_assign(ser);
        ser.serialize_bool(v);
        assert(ser.out() =~= old(ser).out() + lit_assign() + if v {
            crate::ser::lit_true()
        } else {
            crate::ser::lit_false()
        });
    }

    /// ` = ` and an integer.
    pub fn serialize_i128(&self, ser: &mut Serializer, v: i128)
        ensures
            final(ser).out() == old(ser).out() + lit_assign() + int_text(v as int),
            final(ser).indent_level == old(ser).indent_level,
            final(ser).indent@ == old(ser).indent@,
    {
        write_assign(ser);
        ser.serialize_i128(v);
        assert(ser.out() =~= old(ser).out() + lit_assign() + int_text(v as int));
    }

    /// ` = ` and a float text.
    pub fn serialize_float_text(&self, ser: &mut Serializer, text: &str)
        ensures
            final(ser).out() == old(ser).out() + lit_assign() + text.spec_bytes(),
            final(ser).indent_level == old(ser).indent_level,
            final(ser).indent@ == old(ser).indent@,
    {
        write_assign(ser);
        ser.serialize_float_text(text);
        assert(ser.out() =~= old(ser).out() + lit_assign() + text.spec_bytes());
    }

    /// ` = ` and a quoted string.
    pub fn serialize_str(&self, ser: &mut Serializer, v: &str)
        ensures
            final(ser).out() == old(ser).out() + lit_assign() + quoted(v.spec_bytes()),
            final(ser).indent_level == old(ser).indent_level,
            final(ser).indent@ == old(ser).indent@,
    {
        write_assign(ser);
        ser.serialize_str(v);
        assert(ser.out() =~= old(ser).out() + lit_assign() + quoted(v.spec_bytes()));
    }

    /// A sequence value: ` = `, then `[ `.
    pub fn serialize_seq(&self, ser: &mut Serializer)
        ensures
            final(ser).out() == old(ser).out() + lit_assign() + lit_seq_open(),
            final(ser).indent_level == old(ser).indent_level,
            final(ser).indent@ == old(ser).indent@,
    {
        write_assign(ser);
        ser.serialize_seq();
        assert(ser.out() =~= old(ser).out() + lit_assign() + lit_seq_open());
    }

    /// A tuple value: ` = `, then `[ `.
    pub fn serialize_tuple(&self, ser: &mut Serializer)
        ensures
            final(ser).out() == old(ser).out() + lit_assign() + lit_seq_open(),
            final(ser).indent_level == old(ser).indent_level,
            final(ser).indent@ == old(ser).indent@,
    {
        write_assign(ser);
        ser.serialize_seq();
        assert(ser.out() =~= old(ser).out() + lit_assign() + lit_seq_open());
    }

    /// A map value: one level deeper, ` {` and a newline.
    pub fn serialize_map(&self, ser: &mut Serializer)
        requires
            old(ser).indent_level < usize::MAX,
        ensures
            final(ser).out() == old(ser).out() + lit_map_open(),
            final(ser).indent_level == old(ser).indent_level + 1,
            final(ser).indent@ == old(ser).indent@,
    {
        ser.indent_level = ser.indent_level + 1;
        ser.serialize_map();
    }

    /// A newtype variant value: ` = ` and the quoted tag; the payload follows
    /// through a `NewtypeVariantSerializer`.
    pub fn serialize_newtype_variant(&self, ser: &mut Serializer, variant: &str)
        ensures
            final(ser).out() == old(ser).out() + lit_assign() + quoted(variant.spec_bytes()),
            final(ser).indent_level == old(ser).indent_level,
            final(ser).indent@ == old(ser).indent@,
    {
        self.serialize_str(ser, variant)
    }

    /// A tuple variant value: ` = `, the quoted tag, ` [ `.
    pub fn serialize_tuple_variant(&self, ser: &mut Serializer, variant: &str)
        ensures
            final(ser).out() == old(ser).out() + lit_assign() + quoted(variant.spec_bytes())
                + seq![0x20u8] + lit_seq_open(),
            final(ser).indent_level == old(ser).indent_level,
            final(ser).indent@ == old(ser).indent@,
    {
        write_assign(ser);
        ser.serialize_tuple_variant(variant);
        assert(ser.out() =~= old(ser).out() + lit_assign() + quoted(variant.spec_bytes())
            + seq![0x20u8] + lit_seq_open());
    }

    /// A struct variant value: ` = `, the quoted tag, a map one level deeper.
    pub fn serialize_struct_variant(&self, ser: &mut Serializer, variant: &str)
        requires
            old(ser).indent_level < usize::MAX,
        ensures
            final(ser).out() == old(ser).out() + lit_assign() + quoted(variant.spec_bytes())
                + lit_map_open(),
            final(ser).indent_level == old(ser).indent_level + 1,
            final(ser).indent@ == old(ser).indent@,
    {
        write_assign(ser);
        ser.serialize_struct_variant(variant);
        assert(ser.out() =~= old(ser).out() + lit_assign() + quoted(variant.spec_bytes())
            + lit_map_open());
    }

    /// `None` cannot be written.
    pub fn serialize_none(&self) -> (r: Result<(), Error>)
        ensures
            r matches Err(e) && e.code == ErrorCode::UnsupportedNone,
    {
        Err(Error::new(ErrorCode::UnsupportedNone))
    }
}

/// Writes the payload of a newtype variant after its tag.
pub struct NewtypeVariantSerializer {}

impl NewtypeVariantSerializer {
    pub fn new() -> (r: NewtypeVariantSerializer) {
        NewtypeVariantSerializer {  }
    }

    /// Before a single value: ` [ `.
    pub fn open_scalar(&self, ser: &mut Serializer)
        ensures
            final(ser).out() == old(ser).out() + seq![0x20u8] + lit_seq_open(),
            final(ser).indent_level == old(ser).indent_level,
            final(ser).indent@ == old(ser).indent@,
    {
        ser.writer.push(0x20u8);
        ser.serialize_seq();
        assert(ser.out() =~= old(ser).out() + seq![0x20u8] + lit_seq_open());
    }

    /// After a single value: ` ]`.
    pub fn close_scalar(&self, ser: &mut Serializer)
        ensures
            final(ser).out() == old(ser).out() + seq![0x20u8, 0x5du8],
            final(ser).indent_level == old(ser).indent_level,
            final(ser).indent@ == old(ser).indent@,
    {
        ser.writer.push(0x20u8);
        ser.writer.push(0x5du8);
        assert(ser.out() =~= old(ser).out() + seq![0x20u8, 0x5du8]);
    }

    /// A sequence payload: ` [ `, its elements, `]`.
    pub fn serialize_seq(&self, ser: &mut Serializer)
        ensures
            final(ser).out() == old(ser).out() + seq![0x20u8] + lit_seq_open(),
            final(ser).indent_level == old(ser).indent_level,
            final(ser).indent@ == old(ser).indent@,
    {
        self.open_scalar(ser)
    }

    /// A map payload: one level deeper, ` {` and a newline.
    pub fn serialize_map(&self, ser: &mut Serializer)
        requires
            old(ser).indent_level < usize::MAX,
        ensures
            final(ser).out() == old(ser).out() + lit_map_open(),
            final(ser).indent_level == old(ser).indent_level + 1,
            final(ser).indent@ == old(ser).indent@,
    {
        ser.indent_level = ser.indent_level + 1;
        ser.serialize_map();
    }
}

} // verus!
