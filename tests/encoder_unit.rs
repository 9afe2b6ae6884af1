use json2toon_rs::{encode, Delimiter, EncoderOptions};
use json2toon_rs::{Number, Value};

fn s(x: &str) -> Value {
    Value::String(x.to_string())
}

fn num(n: i64) -> Value {
    if n >= 0 {
        Value::Number(Number::PosInt(n as u64))
    } else {
        Value::Number(Number::NegInt(n))
    }
}

fn obj(fields: Vec<(&str, Value)>) -> Value {
    Value::Object(fields.into_iter().map(|(k, v)| (k.to_string(), v)).collect())
}

fn arr(items: Vec<Value>) -> Value {
    Value::Array(items)
}

#[test]
fn test_empty_object() {
    let data = obj(vec![]);
    let result = encode(&data, &EncoderOptions::default());
    assert_eq!(result, "");
}

#[test]
fn test_simple_object() {
    let data = obj(vec![("name", s("Alice")), ("age", num(30))]);
    let result = encode(&data, &EncoderOptions::default());
    assert_eq!(result, "name: Alice\nage: 30");
}

#[test]
fn test_nested_object() {
    let data = obj(vec![("user", obj(vec![("name", s("Bob")), ("id", num(123))]))]);
    let result = encode(&data, &EncoderOptions::default());
    assert_eq!(result, "user:\n  name: Bob\n  id: 123");
}

#[test]
fn test_primitive_array() {
    let data = obj(vec![("tags", arr(vec![s("admin"), s("user"), s("dev")]))]);
    let result = encode(&data, &EncoderOptions::default());
    assert_eq!(result, "tags[3]: admin,user,dev");
}

#[test]
fn test_empty_array() {
    let data = obj(vec![("items", arr(vec![]))]);
    let result = encode(&data, &EncoderOptions::default());
    assert_eq!(result, "items[0]:");
}

#[test]
fn test_tabular_array() {
    let data = obj(vec![(
        "users",
        arr(vec![
            obj(vec![("id", num(1)), ("name", s("Alice")), ("active", Value::Bool(true))]),
            obj(vec![("id", num(2)), ("name", s("Bob")), ("active", Value::Bool(false))]),
        ]),
    )]);
    let result = encode(&data, &EncoderOptions::default());
    assert_eq!(result, "users[2]{id,name,active}:\n  1,Alice,true\n  2,Bob,false");
}

#[test]
fn test_mixed_array() {
    let data = obj(vec![("items", arr(vec![num(1), s("text"), Value::Bool(true)]))]);
    let result = encode(&data, &EncoderOptions::default());
    assert_eq!(result, "items[3]:\n  - 1\n  - text\n  - true");
}

#[test]
fn test_array_of_objects() {
    let data = obj(vec![(
        "items",
        arr(vec![
            obj(vec![("id", num(1)), ("name", s("First"))]),
            obj(vec![("id", num(2)), ("name", s("Second"))]),
        ]),
    )]);
    let result = encode(&data, &EncoderOptions::default());
    assert_eq!(result, "items[2]{id,name}:\n  1,First\n  2,Second");
}

#[test]
fn test_quoting_colon() {
    let data = obj(vec![("url", s("http://example.com:8080"))]);
    let result = encode(&data, &EncoderOptions::default());
    assert_eq!(result, "url: \"http://example.com:8080\"");
}

#[test]
fn test_quoting_comma() {
    let data = obj(vec![("tags", arr(vec![s("a,b"), s("c")]))]);
    let result = encode(&data, &EncoderOptions::default());
    assert_eq!(result, "tags[2]: \"a,b\",c");
}

#[test]
fn test_quoting_reserved_words() {
    let data = obj(vec![("values", arr(vec![s("true"), s("false"), s("null")]))]);
    let result = encode(&data, &EncoderOptions::default());
    assert_eq!(result, "values[3]: \"true\",\"false\",\"null\"");
}

#[test]
fn test_number_normalization() {
    let data = obj(vec![
        ("int", num(42)),
        ("float", Value::Number(Number::Float("3.14".to_string()))),
        ("negative", num(-100)),
    ]);
    let result = encode(&data, &EncoderOptions::default());
    assert_eq!(result, "int: 42\nfloat: 3.14\nnegative: -100");
}

#[test]
fn test_tab_delimiter() {
    let data = obj(vec![(
        "items",
        arr(vec![
            obj(vec![("id", num(1)), ("name", s("A"))]),
            obj(vec![("id", num(2)), ("name", s("B"))]),
        ]),
    )]);
    let options = EncoderOptions { indent: 2, delimiter: Delimiter::Tab };
    let result = encode(&data, &options);
    assert_eq!(result, "items[2\t]{id\tname}:\n  1\tA\n  2\tB");
}

#[test]
fn test_pipe_delimiter() {
    let data = obj(vec![("tags", arr(vec![s("a"), s("b"), s("c")]))]);
    let options = EncoderOptions { indent: 2, delimiter: Delimiter::Pipe };
    let result = encode(&data, &options);
    assert_eq!(result, "tags[3|]: a|b|c");
}

#[test]
fn test_deep_nesting() {
    let data = obj(vec![("a", obj(vec![("b", obj(vec![("c", s("value"))]))]))]);
    let result = encode(&data, &EncoderOptions::default());
    assert_eq!(result, "a:\n  b:\n    c: value");
}

#[test]
fn test_list_with_hyphen_values() {
    let data = obj(vec![("items", arr(vec![s("-"), s("-test")]))]);
    let result = encode(&data, &EncoderOptions::default());
    assert_eq!(result, "items[2]: \"-\",\"-test\"");
}

#[test]
fn test_escape_sequences() {
    let data = obj(vec![("text", s("Line1\nLine2\tTab"))]);
    let result = encode(&data, &EncoderOptions::default());
    assert_eq!(result, "text: \"Line1\\nLine2\\tTab\"");
}

#[test]
fn test_nested_arrays() {
    let data = obj(vec![("matrix", arr(vec![arr(vec![num(1), num(2)]), arr(vec![num(3), num(4)])]))]);
    let result = encode(&data, &EncoderOptions::default());
    assert_eq!(result, "matrix[2]:\n  - [2]: 1,2\n  - [2]: 3,4");
}
