use json2toon_rs::{decode, encode, DecodeError, DecoderOptions, EncoderOptions};
use json2toon_rs::{Number, Value};

fn s(x: &str) -> Value {
    Value::String(x.to_string())
}

fn num(n: i64) -> Value {
    if n >= 0 {
        Value::Number(Number::PosInt(n as u64))
    } else {
        Value::Number(Number::NegInt(n))
    }
}

fn obj(fields: Vec<(&str, Value)>) -> Value {
    Value::Object(fields.into_iter().map(|(k, v)| (k.to_string(), v)).collect())
}

#[test]
fn test_decode_empty() {
    let result = decode("", &DecoderOptions::default()).unwrap();
    assert_eq!(result, obj(vec![]));
}

#[test]
fn test_decode_simple_object() {
    let toon = "name: Alice\nage: 30\nactive: true";
    let result = decode(toon, &DecoderOptions::default()).unwrap();
    assert_eq!(
        result,
        obj(vec![("name", s("Alice")), ("age", num(30)), ("active", Value::Bool(true))])
    );
}

#[test]
fn test_decode_nested_object() {
    let toon = "user:\n  id: 123\n  name: Bob";
    let result = decode(toon, &DecoderOptions::default()).unwrap();
    assert_eq!(result, obj(vec![("user", obj(vec![("id", num(123)), ("name", s("Bob"))]))]));
}

#[test]
fn test_decode_primitive_array() {
    let toon = "tags[3]: admin,user,dev";
    let result = decode(toon, &DecoderOptions::default()).unwrap();
    assert_eq!(
        result,
        obj(vec![("tags", Value::Array(vec![s("admin"), s("user"), s("dev")]))])
    );
}

#[test]
fn test_decode_tabular_array() {
    let toon = "users[2]{id,name,active}:\n  1,Alice,true\n  2,Bob,false";
    let result = decode(toon, &DecoderOptions::default()).unwrap();
    assert_eq!(
        result,
        obj(vec![(
            "users",
            Value::Array(vec![
                obj(vec![("id", num(1)), ("name", s("Alice")), ("active", Value::Bool(true))]),
                obj(vec![("id", num(2)), ("name", s("Bob")), ("active", Value::Bool(false))]),
            ])
        )])
    );
}

#[test]
fn test_decode_quoted_strings() {
    let toon = r#"url: "http://example.com:8080""#;
    let result = decode(toon, &DecoderOptions::default()).unwrap();
    assert_eq!(result, obj(vec![("url", s("http://example.com:8080"))]));
}

#[test]
fn test_decode_escape_sequences() {
    let toon = r#"text: "Line1\nLine2\tTab""#;
    let result = decode(toon, &DecoderOptions::default()).unwrap();
    assert_eq!(result, obj(vec![("text", s("Line1\nLine2\tTab"))]));
}

#[test]
fn test_round_trip() {
    let original = obj(vec![
        ("name", s("Test")),
        (
            "items",
            Value::Array(vec![
                obj(vec![("id", num(1)), ("value", s("A"))]),
                obj(vec![("id", num(2)), ("value", s("B"))]),
            ]),
        ),
    ]);
    let toon = encode(&original, &EncoderOptions::default());
    let decoded = decode(&toon, &DecoderOptions::default()).unwrap();
    assert_eq!(original, decoded);
}

#[test]
fn test_decode_mixed_array() {
    let toon = "items[3]:\n  - 42\n  - text\n  - true";
    let result = decode(toon, &DecoderOptions::default()).unwrap();
    assert_eq!(
        result,
        obj(vec![("items", Value::Array(vec![num(42), s("text"), Value::Bool(true)]))])
    );
}

#[test]
fn test_decode_unicode() {
    let toon = "message: Hello ä¸–ç•Œ ðŸ‘‹";
    let result = decode(toon, &DecoderOptions::default()).unwrap();
    assert_eq!(result, obj(vec![("message", s("Hello ä¸–ç•Œ ðŸ‘‹"))]));
}

#[test]
fn test_invalid_indentation() {
    let toon = "user:\n id: 123";
    let result = decode(toon, &DecoderOptions::default());
    assert!(matches!(result, Err(DecodeError::InvalidIndentation { line: 2 })));
}

#[test]
fn test_array_length_mismatch() {
    let toon = "tags[2]: one,two,three";
    let result = decode(toon, &DecoderOptions::default());
    assert!(matches!(
        result,
        Err(DecodeError::ArrayLengthMismatch { expected: 2, found: 3 })
    ));
}

#[test]
fn test_tabular_row_width_mismatch() {
    let toon = "users[1]{id,name}:\n  1,Alice,admin";
    let result = decode(toon, &DecoderOptions::default());
    assert!(matches!(
        result,
        Err(DecodeError::RowWidthMismatch { line: 2, expected: 2, found: 3 })
    ));
}
