use json2toon_rs::{decode, encode, is_encodable, DecodeError, DecoderOptions, Delimiter, Encoder, EncoderOptions, Number, Value};

fn s(x: &str) -> Value {
    Value::String(x.to_string())
}

fn num(n: i64) -> Value {
    if n >= 0 {
        Value::Number(Number::PosInt(n as u64))
    } else {
        Value::Number(Number::NegInt(n))
    }
}

fn float(t: &str) -> Value {
    Value::Number(Number::Float(t.to_string()))
}

fn obj(fields: Vec<(&str, Value)>) -> Value {
    Value::Object(fields.into_iter().map(|(k, v)| (k.to_string(), v)).collect())
}

fn lenient() -> DecoderOptions {
    DecoderOptions { indent: 2, strict: false }
}

fn with_delim(d: Delimiter) -> EncoderOptions {
    EncoderOptions { indent: 2, delimiter: d }
}

#[test]
fn leading_zero_token_stays_text() {
    assert_eq!(decode("007", &DecoderOptions::default()).unwrap(), s("007"));
    assert_eq!(decode("x: 0123", &DecoderOptions::default()).unwrap(), obj(vec![("x", s("0123"))]));
}

#[test]
fn zero_and_fraction_read_as_numbers() {
    assert_eq!(decode("0", &DecoderOptions::default()).unwrap(), num(0));
    assert_eq!(decode("0.5", &DecoderOptions::default()).unwrap(), float("0.5"));
    assert_eq!(decode("-0.25", &DecoderOptions::default()).unwrap(), float("-0.25"));
}

#[test]
fn float_tokens_take_canonical_text() {
    assert_eq!(decode("x: 1e2", &DecoderOptions::default()).unwrap(), obj(vec![("x", float("100.0"))]));
    assert_eq!(decode("x: 3.140", &DecoderOptions::default()).unwrap(), obj(vec![("x", float("3.14"))]));
    assert_eq!(decode("x: inf", &DecoderOptions::default()).unwrap(), obj(vec![("x", s("inf"))]));
    assert_eq!(decode("x: 1e400", &DecoderOptions::default()).unwrap(), obj(vec![("x", s("1e400"))]));
}

#[test]
fn quoting_reserved_word_in_array() {
    let data = obj(vec![("v", Value::Array(vec![s("true")]))]);
    assert_eq!(encode(&data, &EncoderOptions::default()), "v[1]: \"true\"");
}

#[test]
fn delimiter_in_value_quoted_only_under_that_delimiter() {
    let data = obj(vec![("v", Value::Array(vec![s("a,b"), s("c")]))]);
    assert_eq!(encode(&data, &with_delim(Delimiter::Comma)), "v[2]: \"a,b\",c");
    assert_eq!(encode(&data, &with_delim(Delimiter::Pipe)), "v[2|]: a,b|c");
}

#[test]
fn tabular_detection_items() {
    let data = obj(vec![(
        "items",
        Value::Array(vec![
            obj(vec![("id", num(1)), ("name", s("Alice"))]),
            obj(vec![("id", num(2)), ("name", s("Bob"))]),
        ]),
    )]);
    assert_eq!(encode(&data, &EncoderOptions::default()), "items[2]{id,name}:\n  1,Alice\n  2,Bob");
}

#[test]
fn reordered_fields_force_list() {
    let data = obj(vec![(
        "items",
        Value::Array(vec![
            obj(vec![("id", num(1)), ("name", s("Alice"))]),
            obj(vec![("name", s("Bob")), ("id", num(2))]),
        ]),
    )]);
    assert_eq!(
        encode(&data, &EncoderOptions::default()),
        "items[2]:\n  - id: 1\n  name: Alice\n  - name: Bob\n  id: 2"
    );
}

#[test]
fn extra_field_forces_list() {
    let data = obj(vec![(
        "items",
        Value::Array(vec![
            obj(vec![("id", num(1)), ("name", s("Alice"))]),
            obj(vec![("id", num(2)), ("name", s("Bob")), ("x", num(3))]),
        ]),
    )]);
    let text = encode(&data, &EncoderOptions::default());
    assert!(text.starts_with("items[2]:\n  - id: 1"));
}

#[test]
fn lenient_count_keeps_all_elements() {
    let v = decode("tags[2]: one,two,three", &lenient()).unwrap();
    assert_eq!(v, obj(vec![("tags", Value::Array(vec![s("one"), s("two"), s("three")]))]));
}

#[test]
fn strict_count_rejects_extra_element() {
    assert_eq!(
        decode("tags[2]: one,two,three", &DecoderOptions::default()),
        Err(DecodeError::ArrayLengthMismatch { expected: 2, found: 3 })
    );
}

#[test]
fn one_space_indent_is_rejected() {
    assert_eq!(
        decode("user:\n id: 123", &DecoderOptions::default()),
        Err(DecodeError::InvalidIndentation { line: 2 })
    );
}

#[test]
fn lenient_indent_rounds_down() {
    let v = decode("user:\n   id: 123", &lenient()).unwrap();
    assert_eq!(v, obj(vec![("user", obj(vec![("id", num(123))]))]));
}

#[test]
fn missing_bracket_is_invalid_header() {
    assert_eq!(
        decode("x[3: a", &DecoderOptions::default()),
        Err(DecodeError::InvalidArrayHeader("Missing ] in array header".to_string()))
    );
}

#[test]
fn bad_length_is_invalid_header() {
    assert_eq!(
        decode("x[q]: a", &DecoderOptions::default()),
        Err(DecodeError::InvalidArrayHeader("Invalid array length".to_string()))
    );
}

#[test]
fn line_without_key_is_invalid() {
    assert_eq!(
        decode("a: 1\nbogus", &DecoderOptions::default()),
        Err(DecodeError::InvalidLine { line: 2, content: "bogus".to_string() })
    );
}

#[test]
fn unknown_escape_is_rejected_when_strict() {
    assert_eq!(
        decode("x: \"a\\qb\"", &DecoderOptions::default()),
        Err(DecodeError::InvalidEscapeSequence { line: 1, sequence: "q".to_string() })
    );
}

#[test]
fn unknown_escape_kept_when_lenient() {
    assert_eq!(decode("x: \"a\\qb\"", &lenient()).unwrap(), obj(vec![("x", s("a\\qb"))]));
}

#[test]
fn trailing_backslash_is_parse_error() {
    assert_eq!(
        decode("x: \"ab\\\"", &DecoderOptions::default()),
        Err(DecodeError::ParseError("Unterminated escape sequence".to_string()))
    );
}

#[test]
fn row_width_error_names_line() {
    assert_eq!(
        decode("u[1]{a,b}:\n  1,2,3", &DecoderOptions::default()),
        Err(DecodeError::RowWidthMismatch { line: 2, expected: 2, found: 3 })
    );
}

#[test]
fn blank_lines_are_ignored() {
    let v = decode("a: 1\n\n   \nb: 2\n", &DecoderOptions::default()).unwrap();
    assert_eq!(v, obj(vec![("a", num(1)), ("b", num(2))]));
}

#[test]
fn float_normalization_cases() {
    let cases = [
        ("1e20", "100000000000000000000"),
        ("1.5e-7", "0.00000015"),
        ("-2.5e3", "-2500"),
        ("-0.0", "0"),
        ("2.50", "2.5"),
        ("7.0", "7"),
    ];
    for (text, expected) in cases.iter() {
        let data = obj(vec![("x", float(text))]);
        assert_eq!(encode(&data, &EncoderOptions::default()), format!("x: {}", expected));
    }
}

#[test]
fn integer_extremes() {
    let data = obj(vec![
        ("a", Value::Number(Number::PosInt(u64::MAX))),
        ("b", Value::Number(Number::NegInt(i64::MIN))),
    ]);
    assert_eq!(
        encode(&data, &EncoderOptions::default()),
        "a: 18446744073709551615\nb: -9223372036854775808"
    );
    let back = decode("b: -9223372036854775808", &DecoderOptions::default()).unwrap();
    assert_eq!(back, obj(vec![("b", Value::Number(Number::NegInt(i64::MIN)))]));
}

#[test]
fn keys_quoted_when_not_identifiers() {
    let data = obj(vec![("my key", num(1)), ("9lives", num(2)), ("a.b_c", num(3))]);
    let text = encode(&data, &EncoderOptions::default());
    assert_eq!(text, "\"my key\": 1\n\"9lives\": 2\na.b_c: 3");
    assert_eq!(decode(&text, &DecoderOptions::default()).unwrap(), data);
}

#[test]
fn scalars_round_trip() {
    let values = vec![
        s("plain"),
        s(""),
        s(" padded "),
        s("-dash"),
        s("a:b"),
        s("quote\"inside"),
        s("tab\there"),
        s("42"),
        s("007"),
        s("null"),
        num(-17),
        num(0),
        Value::Bool(false),
        Value::Null,
    ];
    for v in values {
        let data = obj(vec![("k", v)]);
        let text = encode(&data, &EncoderOptions::default());
        let back = decode(&text, &DecoderOptions::default()).unwrap();
        assert_eq!(back, data);
        assert_eq!(encode(&back, &EncoderOptions::default()), text);
    }
}

#[test]
fn nested_round_trip_each_delimiter() {
    let data = obj(vec![
        ("name", s("x")),
        ("tags", Value::Array(vec![s("a"), s("b|c"), s("d,e")])),
        (
            "rows",
            Value::Array(vec![
                obj(vec![("id", num(1)), ("ok", Value::Bool(true))]),
                obj(vec![("id", num(2)), ("ok", Value::Bool(false))]),
            ]),
        ),
        ("inner", obj(vec![("deep", obj(vec![("v", num(5))]))])),
    ]);
    for d in [Delimiter::Comma, Delimiter::Tab, Delimiter::Pipe] {
        let text = encode(&data, &with_delim(d));
        assert_eq!(decode(&text, &DecoderOptions::default()).unwrap(), data);
    }
}

#[test]
fn root_list_of_mixed_items() {
    let data = Value::Array(vec![num(1), s("x"), obj(vec![("a", num(2)), ("b", num(3))])]);
    let text = encode(&data, &EncoderOptions::default());
    assert_eq!(text, "[3]:\n  - 1\n  - x\n  - a: 2\n  b: 3");
    assert_eq!(decode(&text, &DecoderOptions::default()).unwrap(), data);
}

#[test]
fn duplicate_keys_keep_first_position() {
    let v = decode("a: 1\nb: 2\na: 3", &DecoderOptions::default()).unwrap();
    assert_eq!(v, obj(vec![("a", num(3)), ("b", num(2))]));
}

#[test]
fn wider_indent_is_honoured() {
    let data = obj(vec![("a", obj(vec![("b", num(1))]))]);
    let text = encode(&data, &EncoderOptions { indent: 4, delimiter: Delimiter::Comma });
    assert_eq!(text, "a:\n    b: 1");
    let back = decode(&text, &DecoderOptions { indent: 4, strict: true }).unwrap();
    assert_eq!(back, data);
}

#[test]
fn header_symbol_and_char() {
    assert_eq!(Delimiter::Comma.header_symbol(), "");
    assert_eq!(Delimiter::Tab.header_symbol(), "\t");
    assert_eq!(Delimiter::Pipe.as_char(), '|');
}

#[test]
fn nested_objects_round_trip() {
    let data = obj(vec![
        ("a", obj(vec![("b", num(1)), ("c", obj(vec![])), ("d", obj(vec![("e", s("x y"))]))])),
        ("f", s("top")),
        ("g", obj(vec![])),
    ]);
    for d in [Delimiter::Comma, Delimiter::Tab, Delimiter::Pipe] {
        let options = EncoderOptions { indent: 3, delimiter: d };
        let text = encode(&data, &options);
        assert_eq!(text, "a:\n   b: 1\n   c:\n   d:\n      e: x y\nf: top\ng:");
        let back = decode(&text, &DecoderOptions { indent: 3, strict: true }).unwrap();
        assert_eq!(back, data);
        assert_eq!(encode(&back, &options), text);
    }
}

#[test]
fn nested_objects_with_inline_arrays_round_trip() {
    let data = obj(vec![
        ("ids", Value::Array(vec![num(3), num(-1), num(0)])),
        ("box", obj(vec![("names", Value::Array(vec![s("a|b"), s("c,d"), s("")])), ("none", Value::Array(vec![]))])),
        ("flags", Value::Array(vec![Value::Bool(true), Value::Bool(false)])),
    ]);
    for d in [Delimiter::Comma, Delimiter::Tab, Delimiter::Pipe] {
        let options = EncoderOptions { indent: 2, delimiter: d };
        let text = encode(&data, &options);
        for strict in [true, false] {
            let back = decode(&text, &DecoderOptions { indent: 2, strict }).unwrap();
            assert_eq!(back, data);
            assert_eq!(encode(&back, &options), text);
        }
    }
    let text = encode(&data, &EncoderOptions::default());
    assert_eq!(
        text,
        "ids[3]: 3,-1,0\nbox:\n  names[3]: a|b,\"c,d\",\"\"\n  none[0]:\nflags[2]: true,false"
    );
}

#[test]
fn field_name_with_brace_round_trips() {
    let data = obj(vec![(
        "items",
        Value::Array(vec![obj(vec![("a}", num(1))]), obj(vec![("a}", num(2))])]),
    )]);
    let text = encode(&data, &EncoderOptions::default());
    assert_eq!(text, "items[2]{\"a}\"}:\n  1\n  2");
    assert_eq!(decode(&text, &DecoderOptions::default()).unwrap(), data);
}

#[test]
fn edge_whitespace_other_than_space_is_quoted() {
    let data = obj(vec![("x", s("x\u{c}")), ("y", s("\u{a0}y"))]);
    let text = encode(&data, &EncoderOptions::default());
    assert_eq!(text, "x: \"x\u{c}\"\ny: \"\u{a0}y\"");
    assert_eq!(decode(&text, &DecoderOptions::default()).unwrap(), data);
}

#[test]
fn quoted_key_with_bracket_is_a_plain_field() {
    let v = decode("\"a[1]\": 5", &DecoderOptions::default()).unwrap();
    assert_eq!(v, obj(vec![("a[1]", num(5))]));
}

#[test]
fn key_ending_in_backslash_round_trips() {
    let data = obj(vec![("a\\", num(1)), ("b", num(2))]);
    let text = encode(&data, &EncoderOptions::default());
    assert_eq!(text, "\"a\\\\\": 1\nb: 2");
    assert_eq!(decode(&text, &DecoderOptions::default()).unwrap(), data);
}

#[test]
fn root_string_with_escaped_quote_then_colon() {
    let text = encode(&s("a\"b:c"), &EncoderOptions::default());
    assert_eq!(text, "\"a\\\"b:c\"");
    assert_eq!(decode(&text, &DecoderOptions::default()).unwrap(), s("a\"b:c"));
}

#[test]
fn nested_object_in_list_item_has_no_blank_line() {
    let data = Value::Array(vec![obj(vec![("a", num(1)), ("b", obj(vec![("c", num(2))]))]), num(3)]);
    let text = encode(&data, &EncoderOptions::default());
    assert_eq!(text, "[2]:\n  - a: 1\n  b:\n    c: 2\n  - 3");
    assert!(!text.contains("\n\n"));
}

#[test]
fn error_messages() {
    assert_eq!(
        DecodeError::RowWidthMismatch { line: 3, expected: 2, found: 1 }.message(),
        "Row width mismatch at line 3: expected 2 fields, got 1"
    );
    assert_eq!(
        DecodeError::InvalidEscapeSequence { line: 1, sequence: "q".to_string() }.message(),
        "Invalid escape sequence at line 1: \\q"
    );
    assert_eq!(
        DecodeError::ArrayLengthMismatch { expected: 2, found: 3 }.message(),
        "Array length mismatch: expected 2, got 3"
    );
    assert_eq!(DecodeError::InvalidIndentation { line: 12 }.message(), "Invalid indentation at line 12");
}

#[test]
fn array_under_quoted_key_round_trips() {
    let data = obj(vec![
        ("my key", Value::Array(vec![s("a"), s("b")])),
        ("a[b", Value::Array(vec![num(1)])),
        ("\u{e9}t\u{e9}", Value::Array(vec![])),
    ]);
    let text = encode(&data, &EncoderOptions::default());
    assert_eq!(text, "\"my key\"[2]: a,b\n\"a[b\"[1]: 1\n\"\u{e9}t\u{e9}\"[0]:");
    assert_eq!(decode(&text, &DecoderOptions::default()).unwrap(), data);
}

#[test]
fn root_inline_array_round_trips() {
    let data = Value::Array(vec![num(1), num(2), num(3)]);
    let text = encode(&data, &EncoderOptions::default());
    assert_eq!(text, "[3]: 1,2,3");
    assert_eq!(decode(&text, &DecoderOptions::default()).unwrap(), data);
    assert_eq!(decode(&text, &lenient()).unwrap(), data);
}

#[test]
fn root_tabular_array_round_trips() {
    let data = Value::Array(vec![
        obj(vec![("id", num(1)), ("name", s("A"))]),
        obj(vec![("id", num(2)), ("name", s("B"))]),
    ]);
    let text = encode(&data, &EncoderOptions::default());
    assert_eq!(text, "[2]{id,name}:\n  1,A\n  2,B");
    let back = decode(&text, &DecoderOptions::default()).unwrap();
    assert_eq!(back, data);
    assert_eq!(encode(&back, &EncoderOptions::default()), text);
}

#[test]
fn root_empty_array_and_empty_inner_arrays() {
    let data = Value::Array(vec![]);
    let text = encode(&data, &EncoderOptions::default());
    assert_eq!(text, "[0]:");
    assert_eq!(decode(&text, &DecoderOptions::default()).unwrap(), data);
    let nested = Value::Array(vec![Value::Array(vec![]), Value::Array(vec![num(1)])]);
    let text = encode(&nested, &EncoderOptions::default());
    assert_eq!(text, "[2]:\n  - [0]:\n  - [1]: 1");
    assert_eq!(decode(&text, &DecoderOptions::default()).unwrap(), nested);
}

#[test]
fn field_list_with_colon_in_name_is_tabular() {
    let data = obj(vec![(
        "t",
        Value::Array(vec![obj(vec![("a:b", num(1))]), obj(vec![("a:b", num(2))])]),
    )]);
    let text = encode(&data, &EncoderOptions::default());
    assert_eq!(text, "t[2]{\"a:b\"}:\n  1\n  2");
    assert_eq!(decode(&text, &DecoderOptions::default()).unwrap(), data);
}

#[test]
fn arrays_in_list_item_objects_round_trip() {
    let data = Value::Array(vec![
        obj(vec![("tags", Value::Array(vec![s("a"), s("b")])), ("n", num(1))]),
        obj(vec![
            ("n", num(2)),
            ("rows", Value::Array(vec![obj(vec![("x", num(1))]), obj(vec![("x", num(2))])])),
        ]),
        num(7),
    ]);
    let text = encode(&data, &EncoderOptions::default());
    assert_eq!(
        text,
        "[3]:\n  - tags[2]: a,b\n  n: 1\n  - n: 2\n  rows[2]{x}:\n    1\n    2\n  - 7"
    );
    assert_eq!(decode(&text, &DecoderOptions::default()).unwrap(), data);
    let v = decode("[1]:\n  - tags[2]: a,b", &DecoderOptions::default()).unwrap();
    assert_eq!(v, Value::Array(vec![obj(vec![("tags", Value::Array(vec![s("a"), s("b")]))])]));
}

#[test]
fn non_finite_double_text_writes_null() {
    let enc = Encoder::new(&EncoderOptions::default());
    let out: String = enc.normalize_number(&Number::Float("NaN".to_string())).into_iter().collect();
    assert_eq!(out, "null");
    assert!(!is_encodable(&float("NaN")));
}

#[test]
fn encodable_values() {
    assert!(is_encodable(&obj(vec![("a", float("1.5e-7")), ("b", num(1))])));
    assert!(!is_encodable(&obj(vec![("a", num(1)), ("a", num(2))])));
    assert!(!is_encodable(&Value::Array(vec![float("abc")])));
    assert!(!is_encodable(&float("")));
    assert!(!is_encodable(&float("1e5000")));
    assert!(is_encodable(&float("-0.0")));
}
