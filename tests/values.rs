use mayfig::de::{Deserializer, NumberToken};
use mayfig::ser::Serializer;
use mayfig::value::Value;

fn s(t: &str) -> Value {
    Value::String(t.to_owned())
}

fn u(n: u64) -> Value {
    Value::Number(NumberToken::U64(n))
}

fn decode(input: &str) -> Value {
    let mut de = Deserializer::from_str(input);
    Value::deserialize(&mut de).unwrap()
}

fn encode(v: &Value) -> String {
    let mut ser = Serializer::new();
    v.serialize(&mut ser).unwrap();
    String::from_utf8(ser.output().to_vec()).unwrap()
}

fn same(a: &Value, b: &Value) -> bool {
    a == b
}

const V1: &str = r#"
map {
	v = 0
	t = [ 1 2 3, ]
}
str = "string"
"#;

const TAG: &str = r#"
tag [ 0 "test" ] {
	v = 0
	t = [ "test" ]
}
[ 0 1 2 ] = "what" [ 2 ]
"#;

#[test]
fn value() {
    let v1 = Value::Mapping(vec![
        (
            s("map"),
            Value::Mapping(vec![(s("v"), u(0)), (s("t"), Value::Sequence(vec![u(1), u(2), u(3)]))]),
        ),
        (s("str"), s("string")),
    ]);
    assert!(same(&v1, &decode(V1)));

    let t1 = Value::Mapping(vec![
        (
            Value::Tagged("tag".to_owned(), vec![u(0), s("test")]),
            Value::Mapping(vec![(s("v"), u(0)), (s("t"), Value::Sequence(vec![s("test")]))]),
        ),
        (
            Value::Sequence(vec![u(0), u(1), u(2)]),
            Value::Tagged("what".to_owned(), vec![u(2)]),
        ),
    ]);
    assert!(same(&t1, &decode(TAG)));
}

const IGNORED: &str = r#"
windowrules {
	app_id [ "org.gnome.Nautilus" ] {
		floating = true
	}
}

binds {
	"mod q" = "quit"
	"mod t" = "spawn" [ "kitty" ]
	"mod n" = "spawn" [ "firefox" "--private-window" ]
}
"#;

#[test]
fn value_ignored() {
    let v = decode(IGNORED);
    assert!(matches!(v, Value::Mapping(ref e) if e.len() == 2));
}

const CANONICAL: &str = "test = \"string\"\nval = 0\nneg = -3\nratio = 0.5\nok = true\nnested {\n\tthing = [ 0 1 2 3 ]\n\t\"mod q\" = \"spawn\" [ \"kitty\" ]\n\tdeep {\n\t\tx = \"a\\tb\"\n\t}\n}\nclass [ \"x\" ] = \"y\" [ 1 ]\n[ 1 2 ] = [ ]\n";

#[test]
fn canonical_text_round_trips() {
    let v = decode(CANONICAL);
    let text = encode(&v);
    assert_eq!(text, CANONICAL);
    assert!(same(&decode(&text), &v));
}

#[test]
fn decoded_values_round_trip() {
    for doc in [V1, TAG, IGNORED] {
        let v = decode(doc);
        let again = decode(&encode(&v));
        assert!(same(&v, &again), "{}", doc);
    }
}

#[test]
fn map_keys_cannot_be_maps() {
    let v = Value::Mapping(vec![(Value::Mapping(vec![]), u(1))]);
    let mut ser = Serializer::new();
    assert!(v.serialize(&mut ser).is_err());
}

#[test]
fn accessors() {
    let v = decode("a = \"x\"\nb = -4\nc = true\nd = [ 1 ]\ne = 18446744073709551615\n");
    let entries = v.as_map().unwrap();
    assert_eq!(entries.len(), 5);
    assert_eq!(entries[0].0.as_str(), Some("a"));
    assert_eq!(entries[0].1.as_str(), Some("x"));
    assert_eq!(entries[1].1.as_i64(), Some(-4));
    assert_eq!(entries[1].1.as_number().unwrap().as_u64(), None);
    assert_eq!(entries[2].1.as_bool(), Some(true));
    assert_eq!(entries[3].1.as_seq().unwrap().len(), 1);
    assert_eq!(entries[4].1.as_i64(), None);
    assert_eq!(entries[4].1.as_number().unwrap().as_u64(), Some(u64::MAX));
    assert!(entries[0].1.as_bool().is_none());
}

#[test]
fn maps_inside_sequences_keep_their_braces() {
    let v = decode("v = [ { a = 1 } { b = \"x\" } ]\n");
    let text = encode(&v);
    assert_eq!(text, "v = [  {\n\ta = 1\n}  {\n\tb = \"x\"\n} ]\n");
    assert!(same(&decode(&text), &v));
}

#[test]
fn untyped_numbers_refuse_nan_and_malformed_floats() {
    for (doc, nan) in [("x = [ .nan ]", true), ("x = [ 1.2.3 ]", false), ("x = [ . ]", false), ("x = [ 1e ]", false), ("x = [ +-1.0 ]", false)] {
        let mut de = Deserializer::from_str(doc);
        let e = Value::deserialize(&mut de).unwrap_err();
        if nan {
            assert!(matches!(e.code(), mayfig::error::ErrorCode::UnsupportedNaN), "{}", doc);
        } else {
            assert!(matches!(e.code(), mayfig::error::ErrorCode::InvalidNum(_)), "{}", doc);
        }
    }
    let v = decode("x = [ 1e5 -2.5e-3 .inf -.inf +.5 7. ]");
    assert_eq!(encode(&v), "x = [ 1e5 -2.5e-3 .inf -.inf +.5 7. ]\n");
}

#[test]
fn value_equality_is_tree_equality() {
    assert!(decode("a = [ 1 \"x\" ]") == decode("a = [ 1, \"x\", ]"));
    assert!(decode("a = 1\nb = 2") != decode("b = 2\na = 1"));
    assert!(decode("a = 1.50") != decode("a = 1.5"));
    assert!(decode("\"k\" = \"v\"") == decode("k = 'v'"));
}
