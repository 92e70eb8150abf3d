use requests::json::JsonValue;

fn roundtrip(v: &JsonValue) -> JsonValue {
    let text = requests::codec::stringify(v);
    requests::codec::parse(&text).expect("printed text must parse")
}

fn text_of(v: &JsonValue) -> String {
    requests::codec::stringify(v)
}

#[test]
fn scalars_print_compactly() {
    assert_eq!(text_of(&JsonValue::Null), "null");
    assert_eq!(text_of(&JsonValue::Bool(true)), "true");
    assert_eq!(text_of(&JsonValue::Bool(false)), "false");
    assert_eq!(text_of(&JsonValue::Int(0)), "0");
    assert_eq!(text_of(&JsonValue::Int(-7)), "-7");
    assert_eq!(text_of(&JsonValue::Str("ok".to_string())), "\"ok\"");
}

#[test]
fn integer_extremes_survive_the_round_trip() {
    for i in [i64::MIN, i64::MIN + 1, -1, 0, 1, i64::MAX - 1, i64::MAX] {
        let v = JsonValue::Int(i);
        let text = text_of(&v);
        match roundtrip(&v) {
            JsonValue::Int(j) => assert_eq!(i, j, "text was {}", text),
            other => panic!("expected an integer back from {}, got {}", text, requests::codec::stringify(&other)),
        }
    }
    assert_eq!(text_of(&JsonValue::Int(i64::MIN)), "-9223372036854775808");
    assert_eq!(text_of(&JsonValue::Int(i64::MAX)), "9223372036854775807");
}

#[test]
fn numbers_just_past_i64_become_literals() {
    match requests::codec::parse("9223372036854775808") {
        Some(JsonValue::Num(lit)) => assert_eq!(lit, "9223372036854775808"),
        other => panic!("expected a literal node, got {:?}", other.map(|v| requests::codec::stringify(&v))),
    }
    match requests::codec::parse("-9223372036854775809") {
        Some(JsonValue::Num(lit)) => assert_eq!(lit, "-9223372036854775809"),
        other => panic!("expected a literal node, got {:?}", other.map(|v| requests::codec::stringify(&v))),
    }
    // the boundary value itself still fits
    match requests::codec::parse("-9223372036854775808") {
        Some(JsonValue::Int(i)) => assert_eq!(i, i64::MIN),
        other => panic!("expected an integer node, got {:?}", other.map(|v| requests::codec::stringify(&v))),
    }
}

#[test]
fn number_grammar_is_enforced() {
    assert!(requests::codec::parse("01").is_none());
    assert!(requests::codec::parse("-").is_none());
    assert!(requests::codec::parse("1.").is_none());
    assert!(requests::codec::parse(".5").is_none());
    assert!(requests::codec::parse("1e").is_none());
    assert!(requests::codec::parse("+1").is_none());
    assert!(requests::codec::parse("-0").is_some());
    assert!(requests::codec::parse("0.0").is_some());
    assert!(requests::codec::parse("1E+10").is_some());
    match requests::codec::parse("2.5e-3") {
        Some(JsonValue::Num(lit)) => assert_eq!(lit, "2.5e-3"),
        other => panic!("expected a literal node, got {:?}", other.map(|v| requests::codec::stringify(&v))),
    }
}

#[test]
fn strings_escape_and_unescape() {
    let v = JsonValue::Str("line\nquote\"back\\slash\u{1}".to_string());
    assert_eq!(
        text_of(&v),
        "\"line\\u000aquote\\\"back\\\\slash\\u0001\""
    );
    match roundtrip(&v) {
        JsonValue::Str(s) => assert_eq!(s, "line\nquote\"back\\slash\u{1}"),
        _ => panic!("expected a string back"),
    }
    match requests::codec::parse("\"\\u00e9\\t\\/\"") {
        Some(JsonValue::Str(s)) => assert_eq!(s, "\u{e9}\t/"),
        _ => panic!("expected a string"),
    }
    // surrogate pairs decode to one character beyond the basic plane
    match requests::codec::parse("\"\\ud83d\\ude00\"") {
        Some(JsonValue::Str(s)) => assert_eq!(s, "\u{1f600}"),
        _ => panic!("expected the paired escape to decode"),
    }
    // unpaired surrogate escapes are rejected
    assert!(requests::codec::parse("\"\\ud800\"").is_none());
    assert!(requests::codec::parse("\"\\udc00\"").is_none());
    assert!(requests::codec::parse("\"\\ud800\\u0041\"").is_none());
    // raw control characters are rejected
    assert!(requests::codec::parse("\"a\nb\"").is_none());
    // unterminated string
    assert!(requests::codec::parse("\"abc").is_none());
}

#[test]
fn nested_containers_round_trip() {
    let v = JsonValue::Arr(vec![
        JsonValue::Obj(vec![
            ("a".to_string(), JsonValue::Arr(vec![])),
            ("b".to_string(), JsonValue::Obj(vec![])),
        ]),
        JsonValue::Arr(vec![JsonValue::Null, JsonValue::Int(3)]),
    ]);
    let text = text_of(&v);
    assert_eq!(text, "[{\"a\":[],\"b\":{}},[null,3]]");
    assert_eq!(text_of(&roundtrip(&v)), text);
}

#[test]
fn repeated_object_keys_keep_the_last_value() {
    match requests::codec::parse("{\"k\": 1, \"k\": 2}") {
        Some(v) => assert_eq!(requests::codec::stringify(&v), "{\"k\":2}"),
        None => panic!("duplicate keys are accepted, later wins"),
    }
}

#[test]
fn structural_garbage_is_rejected() {
    for bad in [
        "", "  ", "nul", "truex", "[1,", "[1 2]", "{\"a\"}", "{\"a\":}", "{a:1}", "[,]", "}",
        "\u{7}",
    ] {
        assert!(requests::codec::parse(bad).is_none(), "{:?} must not parse", bad);
    }
}
