use requests::json::{NODE_ARRAY, NODE_BOOLEAN, NODE_NULL, NODE_NUMBER, NODE_OBJECT, NODE_STRING};
use requests::plugin::Plugin;

fn fresh() -> Plugin {
    Plugin::default()
}

#[test]
fn scenario_int_node_lifecycle() {
    let mut p = fresh();
    let h1 = p.json_int(42);
    assert!(h1 > 0);
    assert_eq!(p.json_node_type(h1), NODE_NUMBER);
    let (status, value) = p.json_get_node_int(h1);
    assert_eq!(status, 0);
    assert_eq!(value, Some(42));
    // the consuming read invalidated the handle
    assert_eq!(p.json_node_type(h1), NODE_NULL);
    let (status, text) = p.json_stringify(h1);
    assert_eq!(status, 1);
    assert!(text.is_none());
}

#[test]
fn scenario_object_from_two_children() {
    let mut p = fresh();
    let h1 = p.json_int(1);
    let h2 = p.json_string("x".to_string());
    let obj = p.json_object(vec![("a".to_string(), h1), ("b".to_string(), h2)]);
    assert!(obj > 0);
    // exactly the keys a and b
    let (s, a) = p.json_get_int(obj, "a".to_string());
    assert_eq!((s, a), (0, Some(1)));
    let (s, b) = p.json_get_string(obj, "b".to_string());
    assert_eq!(s, 0);
    assert_eq!(b.as_deref(), Some("x"));
    let (s, missing) = p.json_get_int(obj, "c".to_string());
    assert_eq!(s, 2);
    assert!(missing.is_none());
    let (s, text) = p.json_stringify(obj);
    assert_eq!(s, 0);
    assert_eq!(text.as_deref(), Some("{\"a\":1,\"b\":\"x\"}"));
    // both source handles are invalid afterward
    assert_eq!(p.json_node_type(h1), NODE_NULL);
    assert_eq!(p.json_node_type(h2), NODE_NULL);
}

#[test]
fn composition_error_still_invalidates_consumed_children() {
    let mut p = fresh();
    let h1 = p.json_int(5);
    let r = p.json_object(vec![("a".to_string(), h1), ("b".to_string(), 9999)]);
    assert_eq!(r, -1);
    // h1 was consumed before the walk hit the unknown handle
    assert_eq!(p.json_node_type(h1), NODE_NULL);

    let h2 = p.json_bool(true);
    let r = p.json_array(vec![h2, 4242]);
    assert_eq!(r, -1);
    assert_eq!(p.json_node_type(h2), NODE_NULL);
}

#[test]
fn round_trip_through_parse_and_stringify() {
    let mut p = fresh();
    let inner = p.json_array(vec![]);
    let h1 = p.json_int(-12);
    let h2 = p.json_bool(false);
    let h3 = p.json_string("he\"llo\n".to_string());
    let arr = p.json_array(vec![h1, h2, h3, inner]);
    let obj = p.json_object(vec![("k".to_string(), arr)]);
    let (s, text) = p.json_stringify(obj);
    assert_eq!(s, 0);
    let text = text.unwrap();
    let (s, reparsed) = p.json_parse(text.clone());
    assert_eq!(s, 0);
    let (s, text2) = p.json_stringify(reparsed.unwrap());
    assert_eq!(s, 0);
    assert_eq!(text, text2.unwrap());
}

#[test]
fn parse_accepts_whitespace_and_rejects_garbage() {
    let mut p = fresh();
    let (s, h) = p.json_parse("  { \"a\" : [ 1 , true , null ] }  ".to_string());
    assert_eq!(s, 0);
    let h = h.unwrap();
    assert_eq!(p.json_node_type(h), NODE_OBJECT);
    let (s, arr) = p.json_get_array(h, "a".to_string());
    assert_eq!(s, 0);
    let arr = arr.unwrap();
    assert_eq!(p.json_node_type(arr), NODE_ARRAY);
    let (s, len) = p.json_array_length(arr);
    assert_eq!((s, len), (0, Some(3)));
    let (s, first) = p.json_array_object(arr, 0);
    assert_eq!(s, 0);
    assert_eq!(p.json_node_type(first.unwrap()), NODE_NUMBER);
    let (s, second) = p.json_array_object(arr, 1);
    assert_eq!(s, 0);
    assert_eq!(p.json_node_type(second.unwrap()), NODE_BOOLEAN);
    let (s, out) = p.json_array_object(arr, 5);
    assert_eq!(s, 2);
    assert!(out.is_none());

    let (s, h) = p.json_parse("{broken".to_string());
    assert_eq!(s, 1);
    assert!(h.is_none());
    let (s, h) = p.json_parse("[1, 2] trailing".to_string());
    assert_eq!(s, 1);
    assert!(h.is_none());
}

#[test]
fn string_escapes_round_trip() {
    let mut p = fresh();
    let (s, h) = p.json_parse("\"a\\nb\\u0041\\\\\"".to_string());
    assert_eq!(s, 0);
    let (s, text) = p.json_get_node_string(h.unwrap());
    assert_eq!(s, 0);
    assert_eq!(text.as_deref(), Some("a\nbA\\"));

    let h = p.json_string("tab\tquote\"".to_string());
    let (s, out) = p.json_stringify(h);
    assert_eq!(s, 0);
    assert_eq!(out.as_deref(), Some("\"tab\\u0009quote\\\"\""));
}

#[test]
fn numbers_outside_i64_and_decimals_keep_their_text() {
    let mut p = fresh();
    let (s, h) = p.json_parse("3.25".to_string());
    assert_eq!(s, 0);
    let h = h.unwrap();
    assert_eq!(p.json_node_type(h), NODE_NUMBER);
    let (s, text) = p.json_get_node_number(h);
    assert_eq!(s, 0);
    assert_eq!(text.as_deref(), Some("3.25"));

    let (s, h) = p.json_parse("99999999999999999999".to_string());
    assert_eq!(s, 0);
    let (s, text) = p.json_get_node_number(h.unwrap());
    assert_eq!(s, 0);
    assert_eq!(text.as_deref(), Some("99999999999999999999"));

    let big = p.json_number("-2.5e3".to_string());
    assert!(big > 0);
    let (s, text) = p.json_get_node_number(big);
    assert_eq!(s, 0);
    assert_eq!(text.as_deref(), Some("-2.5e3"));

    assert_eq!(p.json_number("not a number".to_string()), -1);
}

#[test]
fn append_merges_objects_and_concatenates_arrays() {
    let mut p = fresh();
    let one = p.json_int(1);
    let two = p.json_int(2);
    let oa = p.json_object(vec![("x".to_string(), one), ("y".to_string(), two)]);
    let three = p.json_int(3);
    let ob = p.json_object(vec![("y".to_string(), three)]);
    let merged = p.json_append(oa, ob);
    assert!(merged > 0);
    let (s, y) = p.json_get_int(merged, "y".to_string());
    assert_eq!((s, y), (0, Some(3)));
    let (s, x) = p.json_get_int(merged, "x".to_string());
    assert_eq!((s, x), (0, Some(1)));
    // both sources consumed
    assert_eq!(p.json_node_type(oa), NODE_NULL);
    assert_eq!(p.json_node_type(ob), NODE_NULL);

    let e1 = p.json_int(1);
    let a1 = p.json_array(vec![e1]);
    let e2 = p.json_int(2);
    let a2 = p.json_array(vec![e2]);
    let joined = p.json_append(a1, a2);
    let (s, len) = p.json_array_length(joined);
    assert_eq!((s, len), (0, Some(2)));

    // mismatched kinds: a distinguished error, both consumed
    let o = p.json_object(vec![]);
    let a = p.json_array(vec![]);
    assert_eq!(p.json_append(o, a), -2);
    assert_eq!(p.json_node_type(o), NODE_NULL);
    assert_eq!(p.json_node_type(a), NODE_NULL);

    assert_eq!(p.json_append(123456, 1), -1);
}

#[test]
fn setters_replace_and_append_keys() {
    let mut p = fresh();
    let obj = p.json_object(vec![]);
    assert_eq!(p.json_set_int(obj, "n".to_string(), 5), 0);
    assert_eq!(p.json_set_bool(obj, "b".to_string(), true), 0);
    assert_eq!(p.json_set_string(obj, "s".to_string(), "v".to_string()), 0);
    assert_eq!(p.json_set_number(obj, "f".to_string(), "1.5".to_string()), 0);
    assert_eq!(p.json_set_int(obj, "n".to_string(), 6), 0);
    let (s, n) = p.json_get_int(obj, "n".to_string());
    assert_eq!((s, n), (0, Some(6)));
    let (s, b) = p.json_get_bool(obj, "b".to_string());
    assert_eq!((s, b), (0, Some(true)));
    let (s, f) = p.json_get_number(obj, "f".to_string());
    assert_eq!(s, 0);
    assert_eq!(f.as_deref(), Some("1.5"));
    let (s, text) = p.json_stringify(obj);
    assert_eq!(s, 0);
    assert_eq!(text.as_deref(), Some("{\"n\":6,\"b\":true,\"s\":\"v\",\"f\":1.5}"));

    // wrong target kinds
    let num = p.json_int(1);
    assert_eq!(p.json_set_int(num, "k".to_string(), 1), 1);
    assert_eq!(p.json_set_int(12345, "k".to_string(), 1), 1);

    // nested object via set_object consumes the source handle
    let child = p.json_object(vec![]);
    assert_eq!(p.json_set_int(child, "deep".to_string(), 1), 0);
    assert_eq!(p.json_set_object(obj, "child".to_string(), child), 0);
    assert_eq!(p.json_node_type(child), NODE_NULL);
    let (s, got) = p.json_get_object(obj, "child".to_string());
    assert_eq!(s, 0);
    let (s, deep) = p.json_get_int(got.unwrap(), "deep".to_string());
    assert_eq!((s, deep), (0, Some(1)));
}

#[test]
fn getter_error_codes_match_each_failure() {
    let mut p = fresh();
    let obj = p.json_object(vec![]);
    assert_eq!(p.json_set_string(obj, "s".to_string(), "x".to_string()), 0);

    // json_get_object: 1 unknown, 2 not an object, 3 missing key
    assert_eq!(p.json_get_object(999, "k".to_string()).0, 1);
    let num = p.json_int(0);
    assert_eq!(p.json_get_object(num, "k".to_string()).0, 2);
    assert_eq!(p.json_get_object(obj, "missing".to_string()).0, 3);

    // typed getters: 1 unknown or not object, 2 missing key, 3 wrong type
    assert_eq!(p.json_get_int(999, "k".to_string()).0, 1);
    assert_eq!(p.json_get_int(num, "k".to_string()).0, 1);
    assert_eq!(p.json_get_int(obj, "missing".to_string()).0, 2);
    assert_eq!(p.json_get_int(obj, "s".to_string()).0, 3);
    assert_eq!(p.json_get_bool(obj, "s".to_string()).0, 3);
    assert_eq!(p.json_get_number(obj, "s".to_string()).0, 3);
    let (s, got) = p.json_get_string(obj, "s".to_string());
    assert_eq!(s, 0);
    assert_eq!(got.as_deref(), Some("x"));

    // array getters
    assert_eq!(p.json_array_length(num).0, 1);
    assert_eq!(p.json_array_object(num, 0).0, 1);
    let arr = p.json_array(vec![]);
    assert_eq!(p.json_array_object(arr, -1).0, 2);

    // consuming getters fail but still consume mistyped nodes
    let b = p.json_bool(true);
    assert_eq!(p.json_get_node_int(b).0, 1);
    assert_eq!(p.json_node_type(b), NODE_NULL);
}

#[test]
fn toggle_gc_and_cleanup() {
    let mut p = fresh();
    let h = p.json_int(1);
    assert_eq!(p.json_toggle_gc(h, false), 0);
    // not retained: take-style reads keep it alive
    let (s, v) = p.json_get_node_int(h);
    assert_eq!((s, v), (0, Some(1)));
    assert_eq!(p.json_node_type(h), NODE_NUMBER);
    // collect respects the cleared flag, collect_force does not
    assert_eq!(p.json_cleanup(h, true), 1);
    assert_eq!(p.json_cleanup(h, false), 0);
    assert_eq!(p.json_cleanup(h, false), 1);
    assert_eq!(p.json_toggle_gc(4141, true), 1);
}

#[test]
fn node_type_reports_every_kind() {
    let mut p = fresh();
    let n = p.json_parse("null".to_string()).1.unwrap();
    assert_eq!(p.json_node_type(n), NODE_NULL);
    let b = p.json_bool(false);
    assert_eq!(p.json_node_type(b), NODE_BOOLEAN);
    let i = p.json_int(3);
    assert_eq!(p.json_node_type(i), NODE_NUMBER);
    let s = p.json_string(String::new());
    assert_eq!(p.json_node_type(s), NODE_STRING);
    let a = p.json_array(vec![]);
    assert_eq!(p.json_node_type(a), NODE_ARRAY);
    let o = p.json_object(vec![]);
    assert_eq!(p.json_node_type(o), NODE_OBJECT);
}
