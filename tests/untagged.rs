use mayfig::access::MapAccess;
use mayfig::de::Deserializer;
use mayfig::error::Error;
use mayfig::key::MapKey;
use mayfig::read::{Read, StrRead};

type De<'a> = Deserializer<StrRead<'a>>;

#[derive(Debug, PartialEq)]
enum T {
    Id { id: u64 },
    St { st: u64 },
}

#[derive(Debug, PartialEq)]
enum V {
    Pair(u64, u64),
    Sin(u64),
}

fn next_key<'de, R: Read<'de>>(
    m: &mut MapAccess,
    de: &mut Deserializer<R>,
) -> Result<Option<String>, Error> {
    if !m.next_key(de)? {
        return Ok(None);
    }
    let (k, _) = MapKey::new().deserialize_str(de)?;
    m.next_value(de)?;
    Ok(Some(k))
}

/// `T` from a map: whichever variant's only field is there.
fn t_value(de: &mut De) -> Result<T, Error> {
    let mut m = de.deserialize_map()?;
    let mut out = None;
    while let Some(k) = next_key(&mut m, de)? {
        let v = de.deserialize_u64()?.0;
        out = match (k.as_str(), out) {
            ("id", None) => Some(T::Id { id: v }),
            ("st", None) => Some(T::St { st: v }),
            _ => return Err(Error::custom("data did not match any variant".to_owned())),
        };
    }
    out.ok_or_else(|| Error::custom("data did not match any variant".to_owned()))
}

fn t_doc(input: &str) -> Result<T, Error> {
    let mut de = Deserializer::from_str(input);
    t_value(&mut de)
}

/// `{ t: T }`
fn e_doc(input: &str) -> Result<T, Error> {
    let mut de = Deserializer::from_str(input);
    let mut m = de.deserialize_map()?;
    let mut t = None;
    while let Some(k) = next_key(&mut m, &mut de)? {
        match k.as_str() {
            "t" => t = Some(t_value(&mut de)?),
            _ => return Err(Error::custom("unknown field".to_owned())),
        }
    }
    t.ok_or_else(|| Error::custom("missing field `t`".to_owned()))
}

/// `V` by the shape of the value: a sequence of two, or a single number.
fn v_value(de: &mut De) -> Result<V, Error> {
    if de.peek_any() == Some(b'[') {
        let acc = de.deserialize_seq()?;
        let mut items = Vec::new();
        while acc.next_element(de)? {
            items.push(de.deserialize_u64()?.0);
        }
        acc.end(de)?;
        match items.as_slice() {
            [a, b] => Ok(V::Pair(*a, *b)),
            _ => Err(Error::custom("data did not match any variant".to_owned())),
        }
    } else {
        Ok(V::Sin(de.deserialize_u64()?.0))
    }
}

fn s_doc(input: &str) -> Result<V, Error> {
    let mut de = Deserializer::from_str(input);
    let mut m = de.deserialize_map()?;
    let mut v = None;
    while let Some(k) = next_key(&mut m, &mut de)? {
        match k.as_str() {
            "v" => v = Some(v_value(&mut de)?),
            _ => return Err(Error::custom("unknown field".to_owned())),
        }
    }
    v.ok_or_else(|| Error::custom("missing field `v`".to_owned()))
}

#[test]
fn untagged_top() {
    assert_eq!(t_doc("\nid = 4\n").unwrap(), T::Id { id: 4 });
    assert_eq!(t_doc("\nst = 4\n").unwrap(), T::St { st: 4 });
    assert!(t_doc("\nex = 4\n").is_err());
}

#[test]
fn untagged_braces() {
    assert_eq!(t_doc("{\n\tid = 4\n}").unwrap(), T::Id { id: 4 });
    assert_eq!(t_doc("{\n\tst = 4\n}").unwrap(), T::St { st: 4 });
    assert!(t_doc("{\n\tex = 4\n}").is_err());
}

#[test]
fn untagged_nested() {
    assert_eq!(e_doc("\nt {\n\tid = 4\n}\n").unwrap(), T::Id { id: 4 });
    assert_eq!(e_doc("\nt {\n\tst = 4\n}\n").unwrap(), T::St { st: 4 });
    assert!(e_doc("\nt {\n\tex = 4\n}\n").is_err());
}

#[test]
fn untagged_tuple() {
    assert_eq!(s_doc("\nv = 4\n").unwrap(), V::Sin(4));
    assert_eq!(s_doc("\nv [ 4, 5 ]\n").unwrap(), V::Pair(4, 5));
    assert!(s_doc("\nv [ 5 ]\n").is_err());
}

#[test]
fn untagged_enum_top() {
    assert_eq!(t_doc("\nid = 4\n").unwrap(), T::Id { id: 4 });
    assert_eq!(t_doc("\nst = 4\n").unwrap(), T::St { st: 4 });
    assert!(t_doc("\nex = 4\n").is_err());
}

#[test]
fn untagged_enum_braces() {
    assert_eq!(t_doc("{\n\tid = 4\n}").unwrap(), T::Id { id: 4 });
    assert_eq!(t_doc("{\n\tst = 4\n}").unwrap(), T::St { st: 4 });
    assert!(t_doc("{\n\tex = 4\n}").is_err());
}

#[test]
fn untagged_enum_nested() {
    assert_eq!(e_doc("\nt {\n\tid = 4\n}\n").unwrap(), T::Id { id: 4 });
    assert_eq!(e_doc("\nt {\n\tst = 4\n}\n").unwrap(), T::St { st: 4 });
    assert!(e_doc("\nt {\n\tex = 4\n}\n").is_err());
}
