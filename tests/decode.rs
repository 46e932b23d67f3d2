use mayfig::access::{MapAccess, SeqAcc};
use mayfig::de::{Bytes, Deserializer, FloatToken};
use mayfig::error::{add_span, Error, ErrorCode, Position, Span};
use mayfig::key::MapKey;
use mayfig::read::{Read, StrRead};

type De<'a> = Deserializer<StrRead<'a>>;

/// Reads the next key of a map and its separator; `None` at the end.
fn next_key<'de, R: Read<'de>>(
    m: &mut MapAccess,
    de: &mut Deserializer<R>,
) -> Result<Option<String>, Error> {
    if !m.next_key(de)? {
        return Ok(None);
    }
    let (k, _) = MapKey::new().deserialize_str(de)?;
    m.next_value(de)?;
    Ok(Some(k))
}

fn missing(name: &str) -> Error {
    Error::custom(format!("missing field `{}`", name))
}

fn unknown(name: &str) -> Error {
    Error::custom(format!("unknown field `{}`", name))
}

fn invalid_length(n: usize) -> Error {
    Error::custom(format!("invalid length {}", n))
}

fn to_f64(t: FloatToken) -> Result<f64, Error> {
    match t {
        FloatToken::Infinity => Ok(f64::INFINITY),
        FloatToken::NegInfinity => Ok(f64::NEG_INFINITY),
        FloatToken::Decimal(s) => match s.parse::<f64>() {
            Ok(f) if f.is_finite() => Ok(f),
            _ => Err(Error::new(ErrorCode::InvalidNum(s))),
        },
    }
}

fn f64_value(de: &mut De) -> Result<f64, Error> {
    let (t, span) = de.deserialize_f64()?;
    to_f64(t).map_err(|e| add_span(e, span))
}

/// The elements of a sequence whose `[` the caller has consumed or not.
fn seq_of<T, F>(de: &mut De, f: F) -> Result<Vec<T>, Error>
where
    F: Fn(&mut De) -> Result<T, Error>,
{
    let acc = de.deserialize_seq()?;
    let mut v = Vec::new();
    while acc.next_element(de)? {
        v.push(f(de)?);
    }
    acc.end(de)?;
    Ok(v)
}

fn u64_value(de: &mut De) -> Result<u64, Error> {
    Ok(de.deserialize_u64()?.0)
}

fn u32_value(de: &mut De) -> Result<u32, Error> {
    Ok(de.deserialize_u32()?.0)
}

fn string_value(de: &mut De) -> Result<String, Error> {
    Ok(de.deserialize_string()?.0)
}

/// A tuple of exactly `n` elements read by `f`, one per index.
fn tuple_of<F>(acc: SeqAcc, de: &mut De, n: usize, mut f: F) -> Result<(), Error>
where
    F: FnMut(usize, &mut De) -> Result<(), Error>,
{
    for i in 0..n {
        if !acc.next_element(de)? {
            return Err(invalid_length(i));
        }
        f(i, de)?;
    }
    acc.end(de)
}

// ---- bytes ----

const B1: &str = r#"
s = "test"
v = [ 116 101 115 116 ]
"#;

const B2: &str = r#"
s = [ 195 164 229 173 151 ]
v = "ä字"
"#;

fn byt<'a>(de: &mut De<'a>) -> Result<(Bytes<'a>, Bytes<'a>), Error> {
    let mut m = de.deserialize_map()?;
    let (mut s, mut v) = (None, None);
    while let Some(k) = next_key(&mut m, de)? {
        match k.as_str() {
            "s" => s = Some(de.deserialize_bytes()?),
            "v" => v = Some(de.deserialize_bytes()?),
            other => return Err(unknown(other)),
        }
    }
    Ok((s.ok_or_else(|| missing("s"))?, v.ok_or_else(|| missing("v"))?))
}

#[test]
fn bytes() {
    let mut de = Deserializer::from_str(B1);
    let (s, v) = byt(&mut de).unwrap();
    assert_eq!(s.get(), "test".as_bytes());
    assert_eq!(s.get(), v.get());
    assert!(s.is_borrowed());

    let mut de = Deserializer::from_str(B2);
    let (s, v) = byt(&mut de).unwrap();
    assert_eq!(s.get(), "ä字".as_bytes());
    assert_eq!(s.get(), v.get());
    assert!(!s.is_borrowed());
}

const WTF: &[u8] = &[
    b'u', b'h', b' ', b'=', b' ', b'"', 255, 255, 128, 255, b'"', b'\n',
];

#[test]
#[allow(invalid_from_utf8)]
fn fucked() {
    assert!(std::str::from_utf8(WTF).is_err());

    let mut de = Deserializer::from_slice(WTF);
    let mut m = de.deserialize_map().unwrap();
    assert_eq!(next_key(&mut m, &mut de).unwrap().as_deref(), Some("uh"));
    let uh = de.deserialize_bytes().unwrap();
    assert!(next_key(&mut m, &mut de).unwrap().is_none());
    assert_eq!(uh.get(), &[255, 255, 128, 255]);
    assert!(uh.is_borrowed());
}

// ---- comments ----

const C1: &str = r#"
# this is a comment
t = 20# close comment
v = [
	0 1 2 3
] # comment
s = [ # ] comment
]
"#;

const C2: &str = r##"
t = 0 # test
v = [ 0 1 2 ]
s = [
	"test"# another close one
] # test
"##;

fn comment_doc(input: &str) -> Result<(u64, Vec<u64>, Vec<String>), Error> {
    let mut de = Deserializer::from_str(input);
    let mut m = de.deserialize_map()?;
    let (mut t, mut v, mut s) = (None, None, None);
    while let Some(k) = next_key(&mut m, &mut de)? {
        match k.as_str() {
            "t" => t = Some(u64_value(&mut de)?),
            "v" => v = Some(seq_of(&mut de, u64_value)?),
            "s" => {
                s = Some(seq_of(&mut de, |de| {
                    let (r, _) = de.str()?;
                    assert!(r.is_borrowed());
                    Ok(r.get().to_owned())
                })?)
            },
            other => return Err(unknown(other)),
        }
    }
    Ok((t.ok_or_else(|| missing("t"))?, v.ok_or_else(|| missing("v"))?, s.ok_or_else(|| missing("s"))?))
}

#[test]
fn comm() {
    let (t, v, s) = comment_doc(C1).unwrap();
    assert_eq!(t, 20);
    assert_eq!(v, &[0, 1, 2, 3]);
    assert_eq!(s, Vec::<String>::new());

    let (t, v, s) = comment_doc(C2).unwrap();
    assert_eq!(t, 0);
    assert_eq!(v, &[0, 1, 2]);
    assert_eq!(s, &["test"]);
}

// ---- tagged values ----

#[derive(Debug, PartialEq)]
enum Tagged {
    Un,
    Ws(u64),
    Ex(Vec<String>),
    St { code: i32 },
    Tp(u32, String, bool),
    In(i32),
}

/// The struct `{ f: i32 }`, from a map.
fn inline_f(de: &mut De) -> Result<i32, Error> {
    let mut m = de.deserialize_map()?;
    let mut f = None;
    while let Some(k) = next_key(&mut m, de)? {
        match k.as_str() {
            "f" => f = Some(de.deserialize_i32()?.0),
            other => return Err(unknown(other)),
        }
    }
    f.ok_or_else(|| missing("f"))
}

fn tagged_value(de: &mut De) -> Result<Tagged, Error> {
    let mut acc = de.deserialize_enum()?;
    let tag = acc.variant(de)?;
    match tag.as_str() {
        "un" => Ok(Tagged::Un),
        "ws" => {
            let tv = acc.newtype_variant(de)?;
            let v = de.deserialize_u64()?.0;
            tv.end(de)?;
            Ok(Tagged::Ws(v))
        },
        "ex" => {
            let tv = acc.newtype_variant(de)?;
            let inner = SeqAcc::new(Position { line: 0, col: 0, index: 0 });
            let mut v = Vec::new();
            while inner.next_element(de)? {
                v.push(string_value(de)?);
            }
            tv.end(de)?;
            Ok(Tagged::Ex(v))
        },
        "st" => {
            let mut m = acc.struct_variant(de)?;
            let mut code = None;
            while let Some(k) = next_key(&mut m, de)? {
                match k.as_str() {
                    "code" => code = Some(de.deserialize_i32()?.0),
                    other => return Err(unknown(other)),
                }
            }
            Ok(Tagged::St { code: code.ok_or_else(|| missing("code"))? })
        },
        "tp" => {
            let s = acc.tuple_variant(de)?;
            let (mut a, mut b, mut c) = (0, String::new(), false);
            tuple_of(s, de, 3, |i, de| {
                match i {
                    0 => a = de.deserialize_u32()?.0,
                    1 => b = string_value(de)?,
                    _ => c = de.deserialize_bool()?.0,
                }
                Ok(())
            })?;
            Ok(Tagged::Tp(a, b, c))
        },
        "in" => {
            let tv = acc.newtype_variant(de)?;
            let f = inline_f(de)?;
            tv.end(de)?;
            Ok(Tagged::In(f))
        },
        other => Err(Error::custom(format!("unknown variant `{}`", other))),
    }
}

fn tag_doc(input: &str) -> Result<Tagged, Error> {
    let mut de = Deserializer::from_str(input);
    let mut m = de.deserialize_map()?;
    let mut t = None;
    while let Some(k) = next_key(&mut m, &mut de)? {
        match k.as_str() {
            "t" => t = Some(tagged_value(&mut de)?),
            other => return Err(unknown(other)),
        }
    }
    t.ok_or_else(|| missing("t"))
}

#[test]
fn tagged() {
    assert_eq!(tag_doc("\nt = \"ws\" [ 4 ]\n").unwrap(), Tagged::Ws(4));
    assert_eq!(
        tag_doc("\nt = \"ex\" [ \"one\" \"two\" \"three\" ]\n").unwrap(),
        Tagged::Ex(vec!["one".to_owned(), "two".to_owned(), "three".to_owned()])
    );
    assert_eq!(tag_doc("\nt = \"st\" {\n\tcode = 200\n}\n").unwrap(), Tagged::St { code: 200 });
    let t4 = tag_doc("\nt = \"tp\" [ 0 \"two\" false ]\n").unwrap();
    assert!(matches!(t4, Tagged::Tp(0, ref s, false) if s == "two"));
    assert_eq!(tag_doc("\nt = \"in\" [{\n\tf = -2\n}]\n").unwrap(), Tagged::In(-2));
    assert_eq!(tag_doc("\nt = \"in\" {\n\tf = -4\n}\n").unwrap(), Tagged::In(-4));

    let t7 = tag_doc("\nt = \"ws\"\n\t[ 4 ]\n").unwrap_err();
    assert!(matches!(t7.code(), ErrorCode::UnexpectedNewline));
    assert_eq!(t7.span(), Some(Span::Point(Position { line: 2, col: 9, index: 9 })));

    assert_eq!(tag_doc("\nt = \"un\"\n").unwrap(), Tagged::Un);
    assert_eq!(tag_doc("\nt = \"ws\" [\n\t4\n]\n").unwrap(), Tagged::Ws(4));
}

// ---- nested maps ----

/// `{ n: { t: u32 } }`
fn nested_doc(input: &str) -> Result<u32, Error> {
    let mut de = Deserializer::from_str(input);
    let mut m = de.deserialize_map()?;
    let mut n = None;
    while let Some(k) = next_key(&mut m, &mut de)? {
        match k.as_str() {
            "n" => {
                let mut inner = de.deserialize_map()?;
                let mut t = None;
                while let Some(k) = next_key(&mut inner, &mut de)? {
                    match k.as_str() {
                        "t" => t = Some(u32_value(&mut de)?),
                        other => return Err(unknown(other)),
                    }
                }
                n = Some(t.ok_or_else(|| missing("t"))?);
            },
            other => return Err(unknown(other)),
        }
    }
    n.ok_or_else(|| missing("n"))
}

#[test]
fn nested_struct() {
    assert_eq!(nested_doc("\nn {\n\tt = 20\n}\n").unwrap(), 20);
    assert_eq!(nested_doc("{\n\tn { t = 20\n\t}\n}").unwrap(), 20);
    assert_eq!(nested_doc("\nn = {\n\tt = 20\n}\n").unwrap(), 20);
}

/// `{ m: map of T }`, entries in order.
fn map_doc<T, F>(input: &str, f: F) -> Result<Vec<(String, T)>, Error>
where
    F: Fn(&mut De) -> Result<T, Error>,
{
    let mut de = Deserializer::from_str(input);
    let mut m = de.deserialize_map()?;
    let mut out = None;
    while let Some(k) = next_key(&mut m, &mut de)? {
        match k.as_str() {
            "m" => {
                let mut inner = de.deserialize_map()?;
                let mut entries = Vec::new();
                while let Some(k) = next_key(&mut inner, &mut de)? {
                    entries.push((k, f(&mut de)?));
                }
                out = Some(entries);
            },
            other => return Err(unknown(other)),
        }
    }
    out.ok_or_else(|| missing("m"))
}

fn get<'a, T>(entries: &'a [(String, T)], key: &str) -> Option<&'a T> {
    entries.iter().find(|(k, _)| k == key).map(|(_, v)| v)
}

#[test]
fn map_map() {
    let m1 = map_doc("\nm {\n\tv = 20\n\t\"t\" = 40\n\tf = 0\n}\n", u32_value).unwrap();
    assert_eq!(m1.len(), 3);
    assert_eq!(get(&m1, "v"), Some(&20));
    assert_eq!(get(&m1, "t"), Some(&40));
    assert_eq!(get(&m1, "f"), Some(&0));

    let m2 = map_doc("\nm = {\n\tv = \"one\"\n\tt = \"two\"\n\t\"f\" = \"three\"\n}\n", string_value)
        .unwrap();
    assert_eq!(m2.len(), 3);
    assert_eq!(get(&m2, "v").map(|s| s.as_str()), Some("one"));
    assert_eq!(get(&m2, "t").map(|s| s.as_str()), Some("two"));
    assert_eq!(get(&m2, "f").map(|s| s.as_str()), Some("three"));
}

// ---- newlines ----

/// `{ one: i32, two: f32 }`
fn tst_doc(input: &str) -> Result<(i32, f32), Error> {
    let mut de = Deserializer::from_str(input);
    let mut m = de.deserialize_map()?;
    let (mut one, mut two) = (None, None);
    while let Some(k) = next_key(&mut m, &mut de)? {
        match k.as_str() {
            "one" => one = Some(de.deserialize_i32()?.0),
            "two" => two = Some(f64_value(&mut de)? as f32),
            other => return Err(unknown(other)),
        }
    }
    Ok((one.ok_or_else(|| missing("one"))?, two.ok_or_else(|| missing("two"))?))
}

#[test]
fn is_newline() {
    assert_eq!(tst_doc("\none = 20\ntwo = 4.4\n").unwrap(), (20, 4.4));
    assert_eq!(tst_doc("one = -2\ntwo = 4\n").unwrap(), (-2, 4.0));
}

#[test]
fn is_not_newline() {
    let e1 = tst_doc("\none = 20 two = 40\n").unwrap_err();
    assert!(matches!(e1.code(), ErrorCode::ExpectedNewline('t')));

    let e2 = tst_doc("\none = 0\ntwo =\n\t0\n").unwrap_err();
    assert!(matches!(e2.code(), ErrorCode::UnexpectedNewline));
}

// ---- a mixed document ----

/// `{ t: u64, v: (i64, i64, i64), s: String }`
fn r_doc(input: &str) -> Result<(u64, (i64, i64, i64), String), Error> {
    let mut de = Deserializer::from_str(input);
    let mut m = de.deserialize_map()?;
    let (mut t, mut v, mut s) = (None, None, None);
    while let Some(k) = next_key(&mut m, &mut de)? {
        match k.as_str() {
            "t" => t = Some(u64_value(&mut de)?),
            "v" => {
                let acc = de.deserialize_seq()?;
                let mut x = [0i64; 3];
                tuple_of(acc, &mut de, 3, |i, de| {
                    x[i] = de.deserialize_i64()?.0;
                    Ok(())
                })?;
                v = Some((x[0], x[1], x[2]));
            },
            "s" => s = Some(string_value(&mut de)?),
            other => return Err(unknown(other)),
        }
    }
    Ok((t.ok_or_else(|| missing("t"))?, v.ok_or_else(|| missing("v"))?, s.ok_or_else(|| missing("s"))?))
}

/// `{ t: i32, n: { v_v: Vec<u8>, w: bool, s: String } }`
fn n_doc(input: &str) -> Result<(i32, Vec<u8>, bool, String), Error> {
    let mut de = Deserializer::from_str(input);
    let mut m = de.deserialize_map()?;
    let (mut t, mut n) = (None, None);
    while let Some(k) = next_key(&mut m, &mut de)? {
        match k.as_str() {
            "t" => t = Some(de.deserialize_i32()?.0),
            "n" => {
                let mut inner = de.deserialize_map()?;
                let (mut vv, mut w, mut s) = (None, None, None);
                while let Some(k) = next_key(&mut inner, &mut de)? {
                    match k.as_str() {
                        "v_v" => vv = Some(seq_of(&mut de, |de| Ok(de.deserialize_u8()?.0))?),
                        "w" => w = Some(de.deserialize_bool()?.0),
                        "s" => s = Some(string_value(&mut de)?),
                        other => return Err(unknown(other)),
                    }
                }
                n = Some((
                    vv.ok_or_else(|| missing("v_v"))?,
                    w.ok_or_else(|| missing("w"))?,
                    s.ok_or_else(|| missing("s"))?,
                ));
            },
            other => return Err(unknown(other)),
        }
    }
    let (vv, w, s) = n.ok_or_else(|| missing("n"))?;
    Ok((t.ok_or_else(|| missing("t"))?, vv, w, s))
}

#[test]
fn reader() {
    let r1 = r_doc("\nt = 1\nv [ -1 0 1 ]\ns = \"str\"\n").unwrap();
    assert_eq!(r1.0, 1);
    assert_eq!(r1.1, (-1, 0, 1));
    assert_eq!(r1.2, "str");

    let r2 = r_doc("\ns = \"str\"t = 1 v [ -1 0 1 ]\n");
    assert!(r2.is_err());

    // `no` is not a boolean: only `true` and `false`, in any case, are
    let r3 = n_doc("\nt = -4\nn {\n\tv_v [ 1 2 3 ]\n\tw = no\n\ts = \"s\\t\\\"r\"\n}\n").unwrap_err();
    assert!(matches!(r3.code(), ErrorCode::InvalidBool(w) if w == "no"));
    let r3 = n_doc("\nt = -4\nn {\n\tv_v [ 1 2 3 ]\n\tw = false\n\ts = \"s\\t\\\"r\"\n}\n").unwrap();
    assert_eq!(r3.0, -4);
    assert_eq!(r3.1, vec![1, 2, 3]);
    assert_eq!(r3.2, false);
    assert_eq!(r3.3, "s\t\"r");
}

// ---- sequences ----

fn t_vec(input: &str) -> Result<Vec<u8>, Error> {
    let mut de = Deserializer::from_str(input);
    let mut m = de.deserialize_map()?;
    let mut t = None;
    while let Some(k) = next_key(&mut m, &mut de)? {
        match k.as_str() {
            "t" => t = Some(seq_of(&mut de, |de| Ok(de.deserialize_u8()?.0))?),
            other => return Err(unknown(other)),
        }
    }
    t.ok_or_else(|| missing("t"))
}

#[test]
fn num() {
    assert_eq!(t_vec("\nt = [ 2 4 ]\n").unwrap(), &[2, 4]);
    assert_eq!(t_vec("\nt = [ ,,,, 2 ,, 4 ,,,, ]\n").unwrap(), &[2, 4]);
    assert_eq!(t_vec("\nt = [\n\t2\n\t4\n]\n").unwrap(), &[2, 4]);
    assert_eq!(t_vec("\nt = [\n\t2,\n\t4,\n]\n").unwrap(), &[2, 4]);
}

fn v_triple(input: &str) -> Result<(String, u32, String), Error> {
    let mut de = Deserializer::from_str(input);
    let mut m = de.deserialize_map()?;
    let mut v = None;
    while let Some(k) = next_key(&mut m, &mut de)? {
        match k.as_str() {
            "v" => {
                let acc = de.deserialize_seq()?;
                let (mut a, mut b, mut c) = (String::new(), 0, String::new());
                tuple_of(acc, &mut de, 3, |i, de| {
                    match i {
                        0 => {
                            let (r, _) = de.str()?;
                            assert!(r.is_borrowed());
                            a = r.get().to_owned();
                        },
                        1 => b = de.deserialize_u32()?.0,
                        _ => c = string_value(de)?,
                    }
                    Ok(())
                })?;
                v = Some((a, b, c));
            },
            other => return Err(unknown(other)),
        }
    }
    v.ok_or_else(|| missing("v"))
}

#[test]
fn seq_string() {
    let v1 = v_triple("\nv = [ \"test\" 2 \"three\" ]\n").unwrap();
    assert_eq!(v1, ("test".to_owned(), 2, "three".to_owned()));
    let v2 = v_triple("\nv = [\n\t\"test\",\n\t2,\n\t\"three\",\n]\n").unwrap();
    assert_eq!(v2, ("test".to_owned(), 2, "three".to_owned()));
}

// ---- errors raised by the consumer get the value's span ----

fn n_mod5(input: &str) -> Result<u8, Error> {
    let mut de = Deserializer::from_str(input);
    let mut m = de.deserialize_map()?;
    let mut n = None;
    while let Some(k) = next_key(&mut m, &mut de)? {
        match k.as_str() {
            "n" => {
                let (v, span) = de.deserialize_u8()?;
                if v % 5 != 0 {
                    return Err(add_span(Error::custom("number has to be a multiple of 5".to_owned()), span));
                }
                n = Some(v);
            },
            other => return Err(unknown(other)),
        }
    }
    n.ok_or_else(|| missing("n"))
}

fn c_color(input: &str) -> Result<String, Error> {
    let mut de = Deserializer::from_str(input);
    let mut m = de.deserialize_map()?;
    let mut c = None;
    while let Some(k) = next_key(&mut m, &mut de)? {
        match k.as_str() {
            "c" => {
                let (r, span) = de.str()?;
                let text = r.get().to_owned();
                if !text.starts_with('#') {
                    return Err(add_span(Error::custom("a color must start with a #".to_owned()), span));
                }
                c = Some(text);
            },
            other => return Err(unknown(other)),
        }
    }
    c.ok_or_else(|| missing("c"))
}

#[test]
fn custom_spans() {
    let e1 = n_mod5("\nn = 21\n").unwrap_err();
    assert!(matches!(e1.code(), ErrorCode::Custom(_)));
    assert_eq!(
        e1.span(),
        Some(Span::Span(
            Position { line: 2, col: 5, index: 5 },
            Position { line: 2, col: 7, index: 7 }
        ))
    );

    n_mod5("\nn = 20\n").unwrap();
    c_color("\nc = \"#008080\"\n").unwrap();

    let e2 = c_color("\nc = \"008080\"\n").unwrap_err();
    assert!(matches!(e2.code(), ErrorCode::Custom(_)));
    assert_eq!(
        e2.span(),
        Some(Span::Span(
            Position { line: 2, col: 5, index: 5 },
            Position { line: 2, col: 13, index: 13 }
        ))
    );
}

// ---- strings ----

/// `{ s: String, t: u32 }`
fn s_doc(input: &str) -> Result<(String, u32), Error> {
    let mut de = Deserializer::from_str(input);
    let mut m = de.deserialize_map()?;
    let (mut s, mut t) = (None, None);
    while let Some(k) = next_key(&mut m, &mut de)? {
        match k.as_str() {
            "s" => s = Some(string_value(&mut de)?),
            "t" => t = Some(u32_value(&mut de)?),
            other => return Err(unknown(other)),
        }
    }
    Ok((s.ok_or_else(|| missing("s"))?, t.ok_or_else(|| missing("t"))?))
}

/// `{ v: Vec<String>, t: u32 }`
fn st_doc(input: &str) -> Result<(Vec<String>, u32), Error> {
    let mut de = Deserializer::from_str(input);
    let mut m = de.deserialize_map()?;
    let (mut v, mut t) = (None, None);
    while let Some(k) = next_key(&mut m, &mut de)? {
        match k.as_str() {
            "v" => v = Some(seq_of(&mut de, string_value)?),
            "t" => t = Some(u32_value(&mut de)?),
            other => return Err(unknown(other)),
        }
    }
    Ok((v.ok_or_else(|| missing("v"))?, t.ok_or_else(|| missing("t"))?))
}

#[test]
fn str_str() {
    assert!(s_doc("\ns = \"test\"t = 20\n").is_err());

    // `;` is not a separator, and two entries cannot share a line
    let e2 = s_doc("\n\"s\"=\"test\";t=20\n").unwrap_err();
    assert!(matches!(e2.code(), ErrorCode::ExpectedDelimiter(';')));
    assert_eq!(s_doc("\n\"s\"=\"test\"\nt=20\n").unwrap(), ("test".to_owned(), 20));

    let e3 = st_doc("\n\"v\"[\"one\",\"two\"] t=20\n").unwrap_err();
    assert!(matches!(e3.code(), ErrorCode::ExpectedNewline('t')));
    let s3 = st_doc("\n\"v\"[\"one\",\"two\"]\nt=20\n").unwrap();
    assert_eq!(s3.0, &["one", "two"]);
    assert_eq!(s3.1, 20);
}

fn t_string(input: &str) -> Result<String, Error> {
    let mut de = Deserializer::from_str(input);
    let mut m = de.deserialize_map()?;
    let mut t = None;
    while let Some(k) = next_key(&mut m, &mut de)? {
        match k.as_str() {
            "t" => t = Some(string_value(&mut de)?),
            other => return Err(unknown(other)),
        }
    }
    t.ok_or_else(|| missing("t"))
}

#[test]
fn string_string() {
    assert_eq!(t_string("\nt = \"test\"\n").unwrap(), "test");
    assert_eq!(t_string("\nt = \"\\t\\\\\\t\"\n").unwrap(), "\t\\\t");
    assert_eq!(t_string("\nt = \"\"\n").unwrap(), "");
}
