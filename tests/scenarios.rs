use mayfig::access::{MapAccess, SeqAcc};
use mayfig::de::{AnyToken, Deserializer, NumberToken};
use mayfig::entry::{MapKeySerializer, MapValSerializer, NewtypeVariantSerializer};
use mayfig::error::{Error, ErrorCode};
use mayfig::key::{KeyToken, MapKey};
use mayfig::read::{Read, StrRead};
use mayfig::ser::Serializer;

type De<'a> = Deserializer<StrRead<'a>>;

fn next_key<'de, R: Read<'de>>(
    m: &mut MapAccess,
    de: &mut Deserializer<R>,
) -> Result<Option<String>, Error> {
    if !m.next_key(de)? {
        return Ok(None);
    }
    let (k, _) = MapKey::new().deserialize_str(de)?;
    m.next_value(de)?;
    Ok(Some(k))
}

fn text(ser: &Serializer) -> String {
    String::from_utf8(ser.output().to_vec()).unwrap()
}

#[test]
fn two_fields_in_order() {
    let mut de = Deserializer::from_str("t = 20\nv = [ 1 2 3 ]");
    let mut m = de.deserialize_map().unwrap();
    assert_eq!(next_key(&mut m, &mut de).unwrap().as_deref(), Some("t"));
    assert_eq!(de.deserialize_u64().unwrap().0, 20);
    assert_eq!(next_key(&mut m, &mut de).unwrap().as_deref(), Some("v"));
    let acc = de.deserialize_seq().unwrap();
    let mut v = Vec::new();
    while acc.next_element(&mut de).unwrap() {
        v.push(de.deserialize_u8().unwrap().0);
    }
    acc.end(&mut de).unwrap();
    assert_eq!(v, vec![1, 2, 3]);
    assert!(next_key(&mut m, &mut de).unwrap().is_none());
}

#[derive(Debug, PartialEq)]
enum Action {
    Close,
    Spawn(String),
}

fn action(de: &mut De) -> Result<Action, Error> {
    let mut acc = de.deserialize_enum()?;
    match acc.variant(de)?.as_str() {
        "close" => Ok(Action::Close),
        "spawn" => {
            let tv = acc.newtype_variant(de)?;
            let s = de.deserialize_string()?.0;
            tv.end(de)?;
            Ok(Action::Spawn(s))
        },
        other => Err(Error::custom(format!("unknown variant `{}`", other))),
    }
}

fn actions(input: &str) -> Result<Vec<(String, Action)>, Error> {
    let mut de = Deserializer::from_str(input);
    let mut m = de.deserialize_map()?;
    let mut out = Vec::new();
    while let Some(k) = next_key(&mut m, &mut de)? {
        assert_eq!(k, "m");
        let mut inner = de.deserialize_map()?;
        while let Some(k) = next_key(&mut inner, &mut de)? {
            out.push((k, action(&mut de)?));
        }
    }
    Ok(out)
}

#[test]
fn semicolon_is_no_separator() {
    let e = actions("m { \"mod q\" = \"close\" ; \"mod t\" = \"spawn\" [ \"kitty\" ] }").unwrap_err();
    assert!(matches!(e.code(), ErrorCode::ExpectedNewline(';')));

    let ok = actions("m {\n\"mod q\" = \"close\"\n\"mod t\" = \"spawn\" [ \"kitty\" ]\n}").unwrap();
    assert_eq!(
        ok,
        vec![
            ("mod q".to_owned(), Action::Close),
            ("mod t".to_owned(), Action::Spawn("kitty".to_owned())),
        ]
    );
}

#[derive(Debug, PartialEq)]
enum V {
    Unit,
    New(u32),
    Val(u32, u32),
    Str { val: u32 },
}

#[derive(Debug, PartialEq)]
enum M {
    Tag,
    Key(String),
    Val(i32, u32),
    List(Vec<String>),
}

fn m_key(de: &mut De) -> Result<M, Error> {
    match MapKey::new().deserialize_any(de)? {
        KeyToken::Str(s) if s == "tag" => Ok(M::Tag),
        KeyToken::Tagged(mut acc) => {
            let tag = acc.variant(de)?;
            let s = acc.tuple_variant(de)?;
            let out = match tag.as_str() {
                "key" => {
                    assert!(s.next_element(de)?);
                    M::Key(de.deserialize_string()?.0)
                },
                "val" => {
                    assert!(s.next_element(de)?);
                    let a = de.deserialize_i32()?.0;
                    assert!(s.next_element(de)?);
                    M::Val(a, de.deserialize_u32()?.0)
                },
                "seq" => {
                    let mut v = Vec::new();
                    while s.next_element(de)? {
                        v.push(de.deserialize_string()?.0);
                    }
                    M::List(v)
                },
                other => return Err(Error::custom(format!("unknown variant `{}`", other))),
            };
            s.end(de)?;
            Ok(out)
        },
        _ => Err(Error::custom("unexpected key".to_owned())),
    }
}

fn v_value(de: &mut De) -> Result<V, Error> {
    let mut acc = de.deserialize_enum()?;
    match acc.variant(de)?.as_str() {
        "unit" => Ok(V::Unit),
        "new" => {
            let tv = acc.newtype_variant(de)?;
            let n = de.deserialize_u32()?.0;
            tv.end(de)?;
            Ok(V::New(n))
        },
        "val" => {
            let s = acc.tuple_variant(de)?;
            assert!(s.next_element(de)?);
            let a = de.deserialize_u32()?.0;
            assert!(s.next_element(de)?);
            let b = de.deserialize_u32()?.0;
            s.end(de)?;
            Ok(V::Val(a, b))
        },
        "str" => {
            let mut m = acc.struct_variant(de)?;
            let mut val = None;
            while let Some(k) = next_key(&mut m, de)? {
                assert_eq!(k, "val");
                val = Some(de.deserialize_u32()?.0);
            }
            Ok(V::Str { val: val.unwrap() })
        },
        other => Err(Error::custom(format!("unknown variant `{}`", other))),
    }
}

fn enum_map_doc(input: &str) -> Result<Vec<(M, V)>, Error> {
    let mut de = Deserializer::from_str(input);
    let mut top = de.deserialize_map()?;
    let mut out = Vec::new();
    while let Some(k) = next_key(&mut top, &mut de)? {
        assert!(k == "map" || k == "t");
        let mut m = de.deserialize_map()?;
        while m.next_key(&mut de)? {
            let key = m_key(&mut de)?;
            m.next_value(&mut de)?;
            out.push((key, v_value(&mut de)?));
        }
    }
    Ok(out)
}

const M1: &str = r#"
map {
	tag = "val" [ 20 40 ]
	key [ "test" ] = "str" { val = 20 }
	val [ -2 2 ] = "unit"
	seq [ "one" "two" "three" ] = "new" [ 4 ]
	seq [] = "unit"
}
"#;

#[test]
fn enum_map() {
    let m1 = enum_map_doc(M1).unwrap();
    assert_eq!(m1.len(), 5);
    let get = |k: &M| m1.iter().find(|(x, _)| x == k).map(|(_, v)| v);
    assert_eq!(get(&M::Tag), Some(&V::Val(20, 40)));
    assert_eq!(get(&M::Key("test".to_owned())), Some(&V::Str { val: 20 }));
    assert_eq!(get(&M::Val(-2, 2)), Some(&V::Unit));
    assert_eq!(
        get(&M::List(vec!["one".to_owned(), "two".to_owned(), "three".to_owned()])),
        Some(&V::New(4))
    );
    assert_eq!(get(&M::List(vec![])), Some(&V::Unit));
}

#[test]
fn enum_keys_and_values() {
    let doc = "t {\ntag = \"val\" [ 20 40 ]\nkey [ \"test\" ] = \"str\" { val = 20 }\n}";
    let out = enum_map_doc(doc).unwrap();
    assert_eq!(
        out,
        vec![(M::Tag, V::Val(20, 40)), (M::Key("test".to_owned()), V::Str { val: 20 })]
    );
}

#[test]
fn any_dispatch() {
    let mut de = Deserializer::from_str("a = \"x\" [ 1 ]\nb = \"y\"\n\t[ 1 ]\n");
    let mut m = match de.deserialize_any().unwrap() {
        AnyToken::Mapping(m) => m,
        _ => panic!("top level is a map"),
    };
    assert_eq!(next_key(&mut m, &mut de).unwrap().as_deref(), Some("a"));
    match de.deserialize_any().unwrap() {
        AnyToken::Tagged(acc) => assert_eq!(acc.tag.as_deref(), Some("x")),
        _ => panic!("a `[` on the same line makes a tag"),
    }
    let mut de = Deserializer::from_str("b = \"y\"\n\t[ 1 ]\n");
    let mut m = match de.deserialize_any().unwrap() {
        AnyToken::Mapping(m) => m,
        _ => panic!("top level is a map"),
    };
    assert_eq!(next_key(&mut m, &mut de).unwrap().as_deref(), Some("b"));
    match de.deserialize_any().unwrap() {
        AnyToken::Str(s) => assert_eq!(s, "y"),
        _ => panic!("a `[` on the next line does not"),
    }

    let mut de = Deserializer::from_str("v = [ -3 4 2.5 true ]");
    let mut m = match de.deserialize_any().unwrap() {
        AnyToken::Mapping(m) => m,
        _ => panic!(),
    };
    next_key(&mut m, &mut de).unwrap();
    let acc = match de.deserialize_any().unwrap() {
        AnyToken::Sequence(acc) => acc,
        _ => panic!(),
    };
    let mut items = Vec::new();
    while acc.next_element(&mut de).unwrap() {
        items.push(match de.deserialize_any().unwrap() {
            AnyToken::Number(NumberToken::I64(v)) => format!("i{}", v),
            AnyToken::Number(NumberToken::U64(v)) => format!("u{}", v),
            AnyToken::Number(NumberToken::Float(s)) => format!("f{}", s),
            AnyToken::Bool(b) => format!("b{}", b),
            _ => panic!(),
        });
    }
    acc.end(&mut de).unwrap();
    assert_eq!(items, vec!["i-3", "u4", "f2.5", "btrue"]);

    let mut de = Deserializer::from_str("v = maybe");
    let mut m = match de.deserialize_any().unwrap() {
        AnyToken::Mapping(m) => m,
        _ => panic!(),
    };
    next_key(&mut m, &mut de).unwrap();
    let e = de.deserialize_any().err().unwrap();
    assert!(matches!(e.code(), ErrorCode::UnexpectedWord(w) if w == "maybe"));
}

#[test]
fn key_any_refuses_maps() {
    let mut de = Deserializer::from_str("{ a = 1 } = 2");
    let e = MapKey::new().deserialize_any(&mut de).err().unwrap();
    assert!(matches!(e.code(), ErrorCode::UnsupportedMapKey(_)));
    let mut de = Deserializer::from_str("12 = 2");
    assert!(matches!(
        MapKey::new().deserialize_any(&mut de).ok().unwrap(),
        KeyToken::Number(NumberToken::U64(12))
    ));
}

#[test]
fn encodes_a_document() {
    let mut ser = Serializer::new();
    let key = MapKeySerializer::new();
    let val = MapValSerializer::new();
    ser.serialize_map();
    ser.indent();
    key.serialize_str(&mut ser, "test");
    val.serialize_str(&mut ser, "string");
    ser.end_entry();
    ser.indent();
    key.serialize_str(&mut ser, "val");
    val.serialize_i128(&mut ser, 0);
    ser.end_entry();
    ser.indent();
    key.serialize_str(&mut ser, "nested");
    val.serialize_map(&mut ser);
    ser.indent();
    key.serialize_str(&mut ser, "thing");
    val.serialize_seq(&mut ser);
    for i in 0..4u64 {
        ser.serialize_u64(i);
        ser.end_element();
    }
    ser.end_seq();
    ser.end_entry();
    ser.end_map();
    ser.end_entry();
    ser.end_map();
    assert_eq!(text(&ser), "test = \"string\"\nval = 0\nnested {\n\tthing = [ 0 1 2 3 ]\n}\n");
}

#[test]
fn encodes_variants_and_keys() {
    let mut ser = Serializer::with_indent(b"  ");
    let key = MapKeySerializer::new();
    let val = MapValSerializer::new();
    let nt = NewtypeVariantSerializer::new();
    ser.serialize_map();
    key.serialize_str(&mut ser, "mod q");
    val.serialize_newtype_variant(&mut ser, "spawn");
    nt.open_scalar(&mut ser);
    ser.serialize_str("kit\"ty\n");
    nt.close_scalar(&mut ser);
    ser.end_entry();
    key.serialize_tuple_variant(&mut ser, "class");
    ser.serialize_str("x");
    ser.end_element();
    ser.end_seq();
    val.serialize_struct_variant(&mut ser, "thing");
    ser.indent();
    key.serialize_str(&mut ser, "a1");
    val.serialize_i128(&mut ser, -42);
    ser.end_entry();
    ser.end_map();
    ser.end_entry();
    ser.end_map();
    assert_eq!(
        text(&ser),
        "\"mod q\" = \"spawn\" [ \"kit\\\"ty\\n\" ]\nclass [ \"x\" ] = \"thing\" {\n  a1 = -42\n}\n"
    );
}

#[test]
fn integers_are_written_in_decimal() {
    let mut ser = Serializer::new();
    ser.serialize_u64(u64::MAX);
    ser.end_element();
    ser.serialize_i64(i64::MIN);
    ser.end_element();
    ser.serialize_i128(1234);
    assert_eq!(text(&ser), "18446744073709551615 -9223372036854775808 1234");
}

#[test]
fn keys_with_underscores_are_quoted() {
    let mut ser = Serializer::new();
    MapKeySerializer::new().serialize_str(&mut ser, "a_b");
    ser.end_element();
    MapKeySerializer::new().serialize_str(&mut ser, "ab1");
    ser.end_element();
    MapKeySerializer::new().serialize_str(&mut ser, "1ab");
    assert_eq!(text(&ser), "\"a_b\" ab1 \"1ab\"");
    assert!(ser.serialize_none().is_err());
    assert!(MapKeySerializer::new().serialize_bytes().is_err());
}

#[test]
fn written_text_reads_back() {
    let mut ser = Serializer::new();
    let key = MapKeySerializer::new();
    let val = MapValSerializer::new();
    key.serialize_str(&mut ser, "s");
    val.serialize_str(&mut ser, "tab\there \"q\" back\\slash");
    ser.end_entry();
    key.serialize_str(&mut ser, "n");
    val.serialize_i128(&mut ser, -17);
    ser.end_entry();
    let out = text(&ser);
    let mut de = Deserializer::from_str(&out);
    let mut m = de.deserialize_map().unwrap();
    assert_eq!(next_key(&mut m, &mut de).unwrap().as_deref(), Some("s"));
    assert_eq!(de.deserialize_string().unwrap().0, "tab\there \"q\" back\\slash");
    assert_eq!(next_key(&mut m, &mut de).unwrap().as_deref(), Some("n"));
    assert_eq!(de.deserialize_i8().unwrap().0, -17);
    assert!(next_key(&mut m, &mut de).unwrap().is_none());
}

#[test]
fn unit_and_errors() {
    let mut de = Deserializer::from_str("x");
    assert!(matches!(de.deserialize_unit().unwrap_err().code(), ErrorCode::UnsupportedUnit));
    let mut de = Deserializer::from_str("300");
    assert!(matches!(de.deserialize_u8().unwrap_err().code(), ErrorCode::InvalidNum(s) if s == "300"));
    let mut de = Deserializer::from_str("-1");
    assert!(de.deserialize_u64().is_err());
    let mut de = Deserializer::from_str("x");
    assert!(matches!(de.deserialize_seq().err().unwrap().code(), ErrorCode::ExpectedSeq('x')));
    let mut de = Deserializer::from_str("x");
    assert!(matches!(de.deserialize_bytes().err().unwrap().code(), ErrorCode::ExpectedBytes('x')));
    let de = Deserializer::from_str("x");
    assert!(matches!(de.deserialize_enum().err().unwrap().code(), ErrorCode::ExpectedEnum('x')));
    let mut de = Deserializer::from_str("\"a\\qb\"");
    assert!(matches!(de.deserialize_string().unwrap_err().code(), ErrorCode::UnknownEscape('q')));
    let mut de = Deserializer::from_str("\"a\u{1}b\"");
    assert!(matches!(de.deserialize_string().unwrap_err().code(), ErrorCode::UnescapedControl(_)));
    let mut de = Deserializer::from_str("\"ab");
    assert!(matches!(de.deserialize_string().unwrap_err().code(), ErrorCode::Eof));
    let mut de = Deserializer::from_str("x");
    assert!(matches!(de.deserialize_string().unwrap_err().code(), ErrorCode::ExpectedQuote('x')));
    let mut de = Deserializer::from_str("a = 1\nb = 2");
    let _ = de.deserialize_map().unwrap();
    let mut de2 = Deserializer::from_str("[ 1 ] x");
    de2.indent = 1;
    assert!(matches!(de2.deserialize_map().err().unwrap().code(), ErrorCode::ExpectedMap('[')));
    let mut de = Deserializer::from_str("a { b }");
    let mut m = de.deserialize_map().unwrap();
    assert!(m.next_key(&mut de).unwrap());
    MapKey::new().deserialize_str(&mut de).unwrap();
    m.next_value(&mut de).unwrap();
    let mut inner = de.deserialize_map().unwrap();
    assert!(inner.next_key(&mut de).unwrap());
    MapKey::new().deserialize_str(&mut de).unwrap();
    assert!(matches!(inner.next_value(&mut de).unwrap_err().code(), ErrorCode::ExpectedValue('}')));
    let _ = SeqAcc::new(de.read.position());
}

#[test]
fn number_touches_closing_bracket() {
    let mut de = Deserializer::from_str("v [1 2]");
    let mut m = de.deserialize_map().unwrap();
    assert_eq!(next_key(&mut m, &mut de).unwrap().as_deref(), Some("v"));
    let acc = de.deserialize_seq().unwrap();
    let mut v = Vec::new();
    while acc.next_element(&mut de).unwrap() {
        v.push(de.deserialize_u32().unwrap().0);
    }
    acc.end(&mut de).unwrap();
    assert_eq!(v, vec![1, 2]);
}

#[test]
fn bare_keys_read_back() {
    let mut ser = Serializer::new();
    MapKeySerializer::new().serialize_str(&mut ser, "abc9");
    MapValSerializer::new().serialize_bool(&mut ser, true);
    let out = text(&ser);
    assert_eq!(out, "abc9 = true");
    let mut de = Deserializer::from_str(&out);
    let mut m = de.deserialize_map().unwrap();
    assert!(m.next_key(&mut de).unwrap());
    let (k, _) = de.identifier().unwrap();
    assert!(k.is_borrowed());
    assert_eq!(k.get(), "abc9");
    m.next_value(&mut de).unwrap();
    assert!(de.deserialize_bool().unwrap().0);
}

#[test]
fn chars_are_written_as_strings() {
    let mut ser = Serializer::new();
    ser.serialize_char('ä');
    ser.end_element();
    ser.serialize_char('"');
    assert_eq!(text(&ser), "\"ä\" \"\\\"\"");
    let mut de = Deserializer::from_str("\"ä\"");
    assert_eq!(de.deserialize_char().unwrap().0, 'ä');
}

#[test]
fn bytes_written_both_ways_read_back() {
    let bytes: Vec<u8> = vec![0, 7, 200, 255, b'"'];
    let mut ser = Serializer::new();
    ser.serialize_seq();
    for b in &bytes {
        ser.serialize_u64(*b as u64);
        ser.end_element();
    }
    ser.end_seq();
    ser.end_element();
    ser.serialize_str_bytes(&bytes);
    let out = ser.output().to_vec();
    assert_eq!(&out[..], &b"[ 0 7 200 255 34 ] \"\x00\x07\xc8\xff\\\"\""[..]);

    let mut de = Deserializer::from_slice(&out);
    let a = de.deserialize_bytes().unwrap();
    assert!(!a.is_borrowed());
    assert_eq!(a.get(), &bytes[..]);
    let _ = de.peek_any();
    // a raw control byte has no escape, so only the sequence form reads back
    assert!(matches!(de.deserialize_bytes().err().unwrap().code(), ErrorCode::UnescapedControl(_)));

    let printable: Vec<u8> = vec![b'a', 200, b'\\', b'\n'];
    let mut ser = Serializer::new();
    ser.serialize_str_bytes(&printable);
    let out = ser.output().to_vec();
    let mut de = Deserializer::from_slice(&out);
    let q = de.deserialize_bytes().unwrap();
    assert!(!q.is_borrowed());
    assert_eq!(q.get(), &printable[..]);
}

#[test]
fn text_must_be_utf8_but_bytes_need_not() {
    let input: &[u8] = b"\"a\xffb\"";
    let mut de = Deserializer::from_slice(input);
    assert!(matches!(de.deserialize_string().unwrap_err().code(), ErrorCode::InvalidUtf8));
    let mut de = Deserializer::from_slice(input);
    assert_eq!(de.deserialize_bytes().unwrap().get(), &b"a\xffb"[..]);
}
