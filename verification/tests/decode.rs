use stackjson::parse_str;
use stackjson::to_rust;
use stackjson::JsonNumber;
use stackjson::JsonValue;
use stackjson::ShapeKind;

#[test]
fn decode_scalars() {
    let b: bool = to_rust(&parse_str("true").expect("parse")).expect("decode bool");
    assert!(b);
    let n: i64 = to_rust(&parse_str("-7").expect("parse")).expect("decode int");
    assert_eq!(n, -7);
    let s: String = to_rust(&parse_str("\"hello\"").expect("parse")).expect("decode string");
    assert_eq!(s, "hello");
}

#[test]
fn decode_option_reads_null() {
    let none: Option<i64> = to_rust(&parse_str("null").expect("parse")).expect("decode none");
    assert_eq!(none, None);
    let some: Option<i64> = to_rust(&parse_str("5").expect("parse")).expect("decode some");
    assert_eq!(some, Some(5));
}

#[test]
fn decode_shape_mismatch() {
    let err = to_rust::<i64>(&parse_str("\"5\"").expect("parse")).expect_err("must fail");
    assert_eq!(err.expected, ShapeKind::Number);
    assert_eq!(err.found, ShapeKind::Text);
    assert_eq!(err.element, None);
    let err = to_rust::<bool>(&JsonValue::Number(JsonNumber::Int(1))).expect_err("must fail");
    assert_eq!(err.expected, ShapeKind::Bool);
    assert_eq!(err.found, ShapeKind::Number);
}

#[test]
fn decode_float_text_is_not_an_integer() {
    let err = to_rust::<i64>(&parse_str("2.5").expect("parse")).expect_err("must fail");
    assert_eq!(err.expected, ShapeKind::Number);
    assert_eq!(err.found, ShapeKind::Number);
}

#[test]
fn decode_array_of_ints() {
    let ts: Vec<i64> =
        stackjson::decode_array(&parse_str("[1, 2, 3]").expect("parse")).expect("decode");
    assert_eq!(ts, vec![1, 2, 3]);
    let empty: Vec<i64> =
        stackjson::decode_array(&parse_str("[]").expect("parse")).expect("decode empty");
    assert!(empty.is_empty());
}

#[test]
fn decode_array_rejects_bad_element_and_shape() {
    let err = stackjson::decode_array::<i64>(&parse_str("[1, true]").expect("parse"))
        .expect_err("must fail");
    assert_eq!(err.expected, ShapeKind::Number);
    assert_eq!(err.found, ShapeKind::Bool);
    assert_eq!(err.element, Some(1));
    let err =
        stackjson::decode_array::<i64>(&parse_str("7").expect("parse")).expect_err("must fail");
    assert_eq!(err.expected, ShapeKind::Array);
    assert_eq!(err.found, ShapeKind::Number);
    assert_eq!(err.element, None);
}

#[test]
fn decode_entries_of_object() {
    let ts: Vec<(String, i64)> =
        stackjson::decode_entries(&parse_str("{\"a\": 1, \"b\": 2}").expect("parse"))
            .expect("decode");
    assert_eq!(ts.len(), 2);
    assert_eq!(ts[0], (String::from("a"), 1));
    assert_eq!(ts[1], (String::from("b"), 2));
}

#[test]
fn decode_entries_rejects_bad_member_and_shape() {
    let err = stackjson::decode_entries::<bool>(&parse_str("{\"a\": 1}").expect("parse"))
        .expect_err("must fail");
    assert_eq!(err.expected, ShapeKind::Bool);
    assert_eq!(err.found, ShapeKind::Number);
    assert_eq!(err.element, Some(0));
    let err = stackjson::decode_entries::<bool>(&parse_str("[true]").expect("parse"))
        .expect_err("must fail");
    assert_eq!(err.expected, ShapeKind::Object);
    assert_eq!(err.found, ShapeKind::Array);
}
