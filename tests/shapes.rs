use mayfig::access::MapAccess;
use mayfig::de::{Deserializer, FloatToken};
use mayfig::error::{Error, ErrorCode};
use mayfig::key::MapKey;
use mayfig::read::{Read, StrRead};

type De<'a> = Deserializer<StrRead<'a>>;

fn next_key<'de, R: Read<'de>>(
    m: &mut MapAccess,
    de: &mut Deserializer<R>,
) -> Result<Option<String>, Error> {
    if !m.next_key(de)? {
        return Ok(None);
    }
    let (k, _) = MapKey::new().deserialize_str(de)?;
    m.next_value(de)?;
    Ok(Some(k))
}

fn missing(name: &str) -> Error {
    Error::custom(format!("missing field `{}`", name))
}

fn unknown(name: &str) -> Error {
    Error::custom(format!("unknown field `{}`", name))
}

/// A document with the single field `name`, read by `f`; `None` when absent.
fn one_field<T, F>(input: &str, name: &str, f: F) -> Result<Option<T>, Error>
where
    F: Fn(&mut De) -> Result<T, Error>,
{
    let mut de = Deserializer::from_str(input);
    let mut m = de.deserialize_map()?;
    let mut out = None;
    while let Some(k) = next_key(&mut m, &mut de)? {
        if k == name {
            out = Some(f(&mut de)?);
        } else {
            return Err(unknown(&k));
        }
    }
    Ok(out)
}

fn required<T, F>(input: &str, name: &str, f: F) -> Result<T, Error>
where
    F: Fn(&mut De) -> Result<T, Error>,
{
    one_field(input, name, f)?.ok_or_else(|| missing(name))
}

/// A tuple of `n` elements, each read by `f` with its index.
fn tuple_n<T, F>(de: &mut De, n: usize, f: F) -> Result<Vec<T>, Error>
where
    F: Fn(usize, &mut De) -> Result<T, Error>,
{
    let acc = de.deserialize_seq()?;
    let mut out = Vec::new();
    for i in 0..n {
        if !acc.next_element(de)? {
            return Err(Error::custom(format!("invalid length {}", i)));
        }
        out.push(f(i, de)?);
    }
    acc.end(de)?;
    Ok(out)
}

fn to_f64(t: FloatToken) -> Result<f64, Error> {
    match t {
        FloatToken::Infinity => Ok(f64::INFINITY),
        FloatToken::NegInfinity => Ok(f64::NEG_INFINITY),
        FloatToken::Decimal(s) => match s.parse::<f64>() {
            Ok(f) if f.is_finite() => Ok(f),
            _ => Err(Error::new(ErrorCode::InvalidNum(s))),
        },
    }
}

#[test]
fn struct_newtype() {
    let n = required("\nn = 4\n", "n", |de| Ok(de.deserialize_u32()?.0)).unwrap();
    assert_eq!(n, 4);
}

#[test]
fn struct_option() {
    let o1 = one_field("", "o", |de| Ok(de.deserialize_u64()?.0)).unwrap();
    assert_eq!(o1, None);
    let o2 = one_field("\no = 4\n", "o", |de| Ok(de.deserialize_u64()?.0)).unwrap();
    assert_eq!(o2, Some(4));
}

#[test]
fn struct_tuple() {
    let triple = |de: &mut De| tuple_n(de, 3, |_, de| Ok(de.deserialize_u64()?.0));
    assert_eq!(required("\nt [ 1 2 3 ]\n", "t", triple).unwrap(), vec![1, 2, 3]);
    assert!(required("\nt [ 1 2 ]\n", "t", triple).is_err());
    let e3 = required("\nt [ 1 2 3 4 ]\n", "t", triple).unwrap_err();
    assert!(matches!(e3.code(), ErrorCode::ExpectedSeqEnd('4')));

    // `yes` and `no` are not booleans: only `true` and `false` in any case
    let mixed = |de: &mut De| {
        tuple_n(de, 3, |i, de| {
            Ok(match i {
                0 => de.deserialize_u64()?.0.to_string(),
                1 => de.deserialize_string()?.0,
                _ => de.deserialize_bool()?.0.to_string(),
            })
        })
    };
    let e4 = required("\nt [ 2 \"test\" yes ]\n", "t", mixed).unwrap_err();
    assert!(matches!(e4.code(), ErrorCode::InvalidBool(w) if w == "yes"));
    let t4 = required("\nt [ 2 \"test\" TRUE ]\n", "t", mixed).unwrap();
    assert_eq!(t4, vec!["2", "test", "true"]);

    let float_bool = |de: &mut De| {
        let acc = de.deserialize_seq()?;
        assert!(acc.next_element(de)?);
        let f = to_f64(de.deserialize_f64()?.0)?;
        assert!(acc.next_element(de)?);
        let b = de.deserialize_bool()?.0;
        acc.end(de)?;
        Ok((f, b))
    };
    let e5 = required("\nt [ 2.4, no ]\n", "t", float_bool).unwrap_err();
    assert!(matches!(e5.code(), ErrorCode::InvalidBool(w) if w == "no"));
    assert_eq!(required("\nt [ 2.4, false ]\n", "t", float_bool).unwrap(), (2.4, false));
}

#[test]
fn stuff_newtype() {
    let input = "\nv = [ 20 -20 ]\nt = \"test\"\n";
    let mut de = Deserializer::from_str(input);
    let mut m = de.deserialize_map().unwrap();
    let (mut v, mut t) = (None, None);
    while let Some(k) = next_key(&mut m, &mut de).unwrap() {
        match k.as_str() {
            "v" => {
                let acc = de.deserialize_seq().unwrap();
                assert!(acc.next_element(&mut de).unwrap());
                let a = de.deserialize_u32().unwrap().0;
                assert!(acc.next_element(&mut de).unwrap());
                let b = de.deserialize_i32().unwrap().0;
                acc.end(&mut de).unwrap();
                v = Some((a, b));
            },
            "t" => {
                let (r, _) = de.str().unwrap();
                assert!(r.is_borrowed());
                t = Some(r.get().to_owned());
            },
            _ => panic!("unknown field"),
        }
    }
    assert_eq!(v, Some((20, -20)));
    assert_eq!(t.as_deref(), Some("test"));
}

#[test]
fn stuff_option() {
    let o1 = one_field("\nt = 20\n", "t", |de| Ok(de.deserialize_u32()?.0)).unwrap();
    assert_eq!(o1, Some(20));
    let o2 = one_field("", "t", |de| Ok(de.deserialize_u32()?.0)).unwrap();
    assert_eq!(o2, None);
}

#[test]
fn char() {
    let c = |de: &mut De| Ok(de.deserialize_char()?.0);
    assert_eq!(required("\nt = \"c\"\n", "t", c).unwrap(), 'c');
    assert!(required("\nt = \"cc\"\n", "t", c).is_err());
    assert!(required("\nt = \"\"\n", "t", c).is_err());
}

#[test]
#[allow(clippy::bool_assert_comparison)]
fn bool() {
    let b = |de: &mut De| Ok(de.deserialize_bool()?.0);
    assert_eq!(required("\nb = true\n", "b", b).unwrap(), true);
    let e2 = required("\nb = damn\n", "b", b).unwrap_err();
    assert!(matches!(e2.code(), ErrorCode::InvalidBool(w) if w == "damn"));
    assert_eq!(required("\nb = False\n", "b", b).unwrap(), false);
    assert_eq!(required("\nb = TRUE\n", "b", b).unwrap(), true);
}

#[test]
fn f64() {
    let f = |de: &mut De| {
        let (t, _) = de.deserialize_f64()?;
        to_f64(t)
    };
    assert_eq!(required("\nf = 2.4\n", "f", f).unwrap(), 2.4);
    assert_eq!(required("\nf = .2\n", "f", f).unwrap(), 0.2);
    let e3 = required("\nf = .\n", "f", f).unwrap_err();
    assert!(matches!(e3.code(), ErrorCode::InvalidNum(_)));
    let e4 = required("\nf = .nAn\n", "f", f).unwrap_err();
    assert!(matches!(e4.code(), ErrorCode::UnsupportedNaN));
    assert_eq!(required("\nf = +.inf\n", "f", f).unwrap(), f64::INFINITY);
    assert_eq!(required("\nf = -.inf\n", "f", f).unwrap(), f64::NEG_INFINITY);
}

#[derive(Debug, PartialEq)]
enum Te {
    T1((u32, u32)),
    T2(u32, u32),
}

/// A pair of `u32` whose `[` is behind the cursor already; `]` is left.
fn inner_pair(de: &mut De) -> Result<(u32, u32), Error> {
    let acc = mayfig::access::SeqAcc::new(de.read.position());
    assert!(acc.next_element(de)?);
    let a = de.deserialize_u32()?.0;
    assert!(acc.next_element(de)?);
    let b = de.deserialize_u32()?.0;
    assert!(!acc.next_element(de)?);
    Ok((a, b))
}

fn pair(de: &mut De) -> Result<(u32, u32), Error> {
    let acc = de.deserialize_seq()?;
    assert!(acc.next_element(de)?);
    let a = de.deserialize_u32()?.0;
    assert!(acc.next_element(de)?);
    let b = de.deserialize_u32()?.0;
    acc.end(de)?;
    Ok((a, b))
}

fn te_key(de: &mut De) -> Result<Te, Error> {
    let mut acc = MapKey::new().deserialize_enum(de)?;
    let tag = acc.variant(de)?;
    match tag.as_str() {
        "t1" => {
            acc.newtype_variant(de)?;
            let p = inner_pair(de)?;
            acc.newtype_end(de)?;
            Ok(Te::T1(p))
        },
        "t2" => {
            let s = acc.tuple_variant(de)?;
            assert!(s.next_element(de)?);
            let a = de.deserialize_u32()?.0;
            assert!(s.next_element(de)?);
            let b = de.deserialize_u32()?.0;
            s.end(de)?;
            Ok(Te::T2(a, b))
        },
        other => Err(Error::custom(format!("unknown variant `{}`", other))),
    }
}

fn te_value(de: &mut De) -> Result<Te, Error> {
    let mut acc = de.deserialize_enum()?;
    let tag = acc.variant(de)?;
    match tag.as_str() {
        "t1" => {
            let tv = acc.newtype_variant(de)?;
            let p = inner_pair(de)?;
            tv.end(de)?;
            Ok(Te::T1(p))
        },
        "t2" => {
            let s = acc.tuple_variant(de)?;
            assert!(s.next_element(de)?);
            let a = de.deserialize_u32()?.0;
            assert!(s.next_element(de)?);
            let b = de.deserialize_u32()?.0;
            s.end(de)?;
            Ok(Te::T2(a, b))
        },
        other => Err(Error::custom(format!("unknown variant `{}`", other))),
    }
}

#[test]
fn stuff_tuple() {
    let input = "\nt = [ 0, 1, ]\nm {\n\tt1 [ 0, 1, ] = \"t1\" [ 2, 3, ]\n\tt2 [ 0, 1, ] = \"t2\" [ 2, 3, ]\n}\n";
    let mut de = Deserializer::from_str(input);
    let mut m = de.deserialize_map().unwrap();
    let (mut t, mut entries) = (None, Vec::new());
    while let Some(k) = next_key(&mut m, &mut de).unwrap() {
        match k.as_str() {
            "t" => t = Some(pair(&mut de).unwrap()),
            "m" => {
                let mut inner = de.deserialize_map().unwrap();
                while inner.next_key(&mut de).unwrap() {
                    let key = te_key(&mut de).unwrap();
                    inner.next_value(&mut de).unwrap();
                    let value = te_value(&mut de).unwrap();
                    entries.push((key, value));
                }
            },
            _ => panic!("unknown field"),
        }
    }
    assert_eq!(t, Some((0, 1)));
    assert_eq!(entries.len(), 2);
    assert!(entries.contains(&(Te::T1((0, 1)), Te::T1((2, 3)))));
    assert!(entries.contains(&(Te::T2(0, 1), Te::T2(2, 3))));
}

/// `{ ä: u32, straße: u32 }`
fn thing(input: &str) -> Result<(u32, u32), Error> {
    let mut de = Deserializer::from_str(input);
    let mut m = de.deserialize_map()?;
    let (mut a, mut s) = (None, None);
    while let Some(k) = next_key(&mut m, &mut de)? {
        match k.as_str() {
            "ä" => a = Some(de.deserialize_u32()?.0),
            "straße" => s = Some(de.deserialize_u32()?.0),
            other => return Err(unknown(other)),
        }
    }
    Ok((a.ok_or_else(|| missing("ä"))?, s.ok_or_else(|| missing("straße"))?))
}

#[test]
fn test() {
    let e1 = thing("\nä = 0\n").unwrap_err();
    assert!(matches!(e1.code(), ErrorCode::ExpectedAsciiAlphabetic('ä')));

    let e2 = thing("\n\"ä\" = 0\nstraße = 1\n").unwrap_err();
    assert!(matches!(e2.code(), ErrorCode::ExpectedAsciiAlphanumeric('ß')));

    let e3 = thing("\n\"ä\" = 0\n\"straße\" = λ\n").unwrap_err();
    assert!(matches!(e3.code(), ErrorCode::ExpectedNumeric('λ')));

    assert_eq!(thing("\n\"ä\" = 0\n\"straße\" = 1\n").unwrap(), (0, 1));
}
