use miniserde_ditto::json::de::{from_str, MAX_DEPTH};
use miniserde_ditto::json::drop::safely;
use miniserde_ditto::json::ser::{escape_str, to_string};
use miniserde_ditto::json::value::{Array, Number, Object, Value};
use miniserde_ditto::ErrorKind;

fn s(t: &str) -> Value {
    Value::String(t.to_owned())
}

fn obj(members: Vec<(&str, Value)>) -> Value {
    let mut o = Object::new();
    for (k, v) in members {
        o.insert(k.to_owned(), v);
    }
    Value::Object(o)
}

fn field<'a>(v: &'a Value, key: &str) -> Result<&'a Value, ErrorKind> {
    match v {
        Value::Object(o) => o.required(key).map_err(|e| e.kind),
        _ => Err(ErrorKind::TypeMismatch),
    }
}

fn as_u64(v: &Value) -> u64 {
    match v {
        Value::Number(Number::U64(n)) => *n,
        other => panic!("not an unsigned integer: {:?}", other),
    }
}

fn as_str(v: &Value) -> &str {
    match v {
        Value::String(t) => t,
        other => panic!("not a string: {:?}", other),
    }
}

#[test]
fn writes_scalars() {
    assert_eq!(to_string(&Value::Null).unwrap(), "null");
    assert_eq!(to_string(&Value::Bool(true)).unwrap(), "true");
    assert_eq!(to_string(&Value::Bool(false)).unwrap(), "false");
    assert_eq!(to_string(&Value::Number(Number::U64(u64::MAX))).unwrap(), "18446744073709551615");
    assert_eq!(to_string(&Value::Number(Number::I64(i64::MIN))).unwrap(), "-9223372036854775808");
    assert_eq!(to_string(&Value::Number(Number::Float("1.5e3".to_owned()))).unwrap(), "1.5e3");
}

#[test]
fn escapes_only_quotes_backslashes_and_controls() {
    let mut out = Vec::new();
    escape_str("a\"b\\c\n\u{1}é€", &mut out);
    assert_eq!(String::from_utf8(out).unwrap(), "\"a\\\"b\\\\c\\n\\u0001é€\"");
}

#[test]
fn writes_containers_compactly() {
    let mut a = Array::new();
    a.push(Value::Number(Number::U64(1)));
    a.push(s("x"));
    a.push(Value::Array(Array::new()));
    let v = obj(vec![("b", Value::Array(a)), ("a", Value::Null)]);
    assert_eq!(to_string(&v).unwrap(), r#"{"a":null,"b":[1,"x",[]]}"#);
}

#[test]
fn reads_numbers_by_range() {
    match from_str("18446744073709551615").unwrap() {
        Value::Number(Number::U64(n)) => assert_eq!(n, u64::MAX),
        other => panic!("{:?}", other),
    }
    match from_str("-9223372036854775808").unwrap() {
        Value::Number(Number::I64(n)) => assert_eq!(n, i64::MIN),
        other => panic!("{:?}", other),
    }
    match from_str("18446744073709551616").unwrap() {
        Value::Number(Number::Float(t)) => assert_eq!(t, "18446744073709551616"),
        other => panic!("{:?}", other),
    }
    match from_str(" -1.25E+2 ").unwrap() {
        Value::Number(Number::Float(t)) => assert_eq!(t, "-1.25E+2"),
        other => panic!("{:?}", other),
    }
}

#[test]
fn reads_escapes_and_surrogate_pairs() {
    let v = from_str(r#""a\n\u00e9\ud83d\ude00\/""#).unwrap();
    assert_eq!(as_str(&v), "a\né😀/");
}

#[test]
fn rejects_malformed_text() {
    for bad in ["", "nul", "[1,]", "{\"a\" 1}", "-", "1.", "\"\\ud800\"", "\"abc", "[1 2]"] {
        assert_eq!(from_str(bad).unwrap_err().kind, ErrorKind::Malformed, "{:?}", bad);
    }
    assert_eq!(from_str("1 2").unwrap_err().kind, ErrorKind::TrailingData);
    assert_eq!(from_str("01").unwrap_err().kind, ErrorKind::TrailingData);
}

#[test]
fn text_round_trip() {
    let text = r#"{"a":[1,-2,"x\"y",{"b":true,"c":null}],"d":1.5}"#;
    let v = from_str(text).unwrap();
    assert_eq!(to_string(&v).unwrap(), text);
}

#[test]
fn repeated_key_keeps_last_value() {
    let v = from_str(r#"{"k":1,"k":2}"#).unwrap();
    assert_eq!(as_u64(field(&v, "k").unwrap()), 2);
    assert_eq!(to_string(&v).unwrap(), r#"{"k":2}"#);
}

#[test]
fn depth_ceiling_is_an_error() {
    let open = "[".repeat(MAX_DEPTH + 1);
    assert_eq!(from_str(&open).unwrap_err().kind, ErrorKind::DepthExceeded);
    let deep_ok = format!("{}{}", "[".repeat(MAX_DEPTH), "]".repeat(MAX_DEPTH));
    assert!(from_str(&deep_ok).is_ok());
}

#[test]
fn deeply_nested_text_is_written_iteratively() {
    let mut value = Value::Null;
    for _ in 0..100_000 {
        let mut a = Array::new();
        a.push(value);
        let mut o = Object::new();
        o.insert("x".to_owned(), Value::Array(a));
        value = Value::Object(o);
    }
    let j = to_string(&value).unwrap();
    let mut expected = String::new();
    for _ in 0..100_000 {
        expected.push_str("{\"x\":[");
    }
    expected.push_str("null");
    for _ in 0..100_000 {
        expected.push_str("]}");
    }
    assert_eq!(j, expected);
    assert_eq!(from_str(&j).unwrap_err().kind, ErrorKind::DepthExceeded);
    safely(value);
}

#[test]
fn renamed_field_round_trips_and_is_required() {
    // A record whose field `id` is written under the key "identifier".
    let record = obj(vec![("identifier", Value::Number(Number::U64(7))), ("name", s("n"))]);
    let text = to_string(&record).unwrap();
    assert_eq!(text, r#"{"identifier":7,"name":"n"}"#);
    let back = from_str(&text).unwrap();
    assert_eq!(as_u64(field(&back, "identifier").unwrap()), 7);
    let missing = from_str(r#"{"id":7,"name":"n"}"#).unwrap();
    assert_eq!(field(&missing, "identifier").unwrap_err(), ErrorKind::MissingField);
}

#[test]
fn externally_tagged_variant() {
    let inner = obj(vec![("id", Value::Number(Number::U64(42))), ("method", s("foo"))]);
    let msg = obj(vec![("Request", inner)]);
    let text = to_string(&msg).unwrap();
    assert_eq!(text, r#"{"Request":{"id":42,"method":"foo"}}"#);
    let back = from_str(&text).unwrap();
    let body = field(&back, "Request").unwrap();
    assert_eq!(as_u64(field(body, "id").unwrap()), 42);
    assert_eq!(as_str(field(body, "method").unwrap()), "foo");
}

#[test]
fn internally_tagged_variant() {
    let msg = obj(vec![
        ("id", Value::Number(Number::U64(42))),
        ("kind", s("Request")),
        ("method", s("foo")),
    ]);
    let text = to_string(&msg).unwrap();
    assert_eq!(text, r#"{"id":42,"kind":"Request","method":"foo"}"#);
    let back = from_str(r#"{"kind":"Request","id":42,"method":"foo"}"#).unwrap();
    assert_eq!(as_str(field(&back, "kind").unwrap()), "Request");
    assert_eq!(as_u64(field(&back, "id").unwrap()), 42);
    assert_eq!(as_str(field(&back, "method").unwrap()), "foo");
}

#[test]
fn untagged_variant() {
    let msg = obj(vec![("id", Value::Number(Number::U64(42))), ("method", s("foo"))]);
    assert_eq!(to_string(&msg).unwrap(), r#"{"id":42,"method":"foo"}"#);
}

#[test]
fn unknown_fields_are_ignored() {
    let v = from_str(r#"{"id":1,"extra":[true,{"deep":null}],"method":"m"}"#).unwrap();
    assert_eq!(as_u64(field(&v, "id").unwrap()), 1);
    assert_eq!(as_str(field(&v, "method").unwrap()), "m");
}
