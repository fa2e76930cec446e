use stackjson::parse_str;
use stackjson::CtxKind;
use stackjson::JsonNumber;
use stackjson::JsonValue;
use stackjson::ParseErrorKind;

#[test]
fn empty_object() {
    let json = "{}";
    let parsed = parse_str(json).expect("Failed to parse json");
    match parsed {
        JsonValue::Object(map) => {
            assert!(map.is_empty());
        }
        _ => panic!("Expected object"),
    }
}

#[test]
fn nested_document() {
    let parsed = parse_str("{\"a\": 1, \"b\": [true, null, 2.5]}").expect("parse failed");
    match parsed {
        JsonValue::Object(entries) => {
            assert_eq!(entries.len(), 2);
            assert_eq!(entries[0].0, "a");
            assert_eq!(entries[0].1, JsonValue::Number(JsonNumber::Int(1)));
            assert_eq!(entries[1].0, "b");
            assert_eq!(
                entries[1].1,
                JsonValue::Array(vec![
                    JsonValue::Bool(true),
                    JsonValue::Null,
                    JsonValue::Number(JsonNumber::Float(String::from("2.5"))),
                ])
            );
        }
        _ => panic!("Expected object"),
    }
}

#[test]
fn string_escape_newline() {
    let parsed = parse_str("\"hi\\n\"").expect("parse failed");
    assert_eq!(parsed, JsonValue::String(String::from("hi\n")));
}

#[test]
fn trailing_comma_in_array() {
    let err = parse_str("[1, 2,]").expect_err("must fail");
    assert_eq!(err.kind, ParseErrorKind::UnexpectedCharacter(']'));
    assert_eq!(err.offset, 6);
    assert_eq!(err.line, 1);
    assert_eq!(err.column, 7);
}

#[test]
fn unterminated_object() {
    let err = parse_str("{\"a\": 1").expect_err("must fail");
    assert_eq!(
        err.kind,
        ParseErrorKind::UnterminatedStructure(vec![
            CtxKind::Root,
            CtxKind::Object,
            CtxKind::ObjectField,
        ])
    );
    assert_eq!(err.offset, 7);
}

#[test]
fn integer_overflow_is_an_error() {
    let err = parse_str("99999999999999999999").expect_err("must fail");
    assert_eq!(err.kind, ParseErrorKind::NumberOverflow);
    assert_eq!(err.offset, 20);
}

#[test]
fn int_bounds_round_trip() {
    assert_eq!(
        parse_str("9223372036854775807").expect("max"),
        JsonValue::Number(JsonNumber::Int(i64::MAX))
    );
    assert_eq!(
        parse_str("-9223372036854775808").expect("min"),
        JsonValue::Number(JsonNumber::Int(i64::MIN))
    );
    let err = parse_str("-9223372036854775809").expect_err("must overflow");
    assert_eq!(err.kind, ParseErrorKind::NumberOverflow);
}

#[test]
fn scalar_round_trips() {
    let scalars = vec![
        JsonValue::Null,
        JsonValue::Bool(true),
        JsonValue::Bool(false),
        JsonValue::Number(JsonNumber::Int(0)),
        JsonValue::Number(JsonNumber::Int(-42)),
        JsonValue::Number(JsonNumber::Int(i64::MAX)),
        JsonValue::Number(JsonNumber::Int(i64::MIN)),
        JsonValue::Number(JsonNumber::Float(String::from("2.5"))),
        JsonValue::Number(JsonNumber::Float(String::from("1e3"))),
        JsonValue::String(String::from("hi\n\t\"quoted\" \\ plain")),
        JsonValue::String(String::new()),
    ];
    for v in scalars {
        let text = v.to_text();
        let back = parse_str(&text).expect("round trip parse failed");
        assert_eq!(back, v);
    }
}

#[test]
fn whitespace_between_tokens_is_insignificant() {
    let compact = parse_str("{\"a\":1,\"b\":[true,null]}").expect("compact");
    let airy = parse_str(" \t{ \"a\" :\r\n 1 ,\n\"b\" : [ true ,  null ] }  \n").expect("airy");
    assert_eq!(compact, airy);
}

#[test]
fn whitespace_inside_strings_matters() {
    let parsed = parse_str("\" a b \"").expect("parse failed");
    assert_eq!(parsed, JsonValue::String(String::from(" a b ")));
}

#[test]
fn deep_nesting_on_the_heap() {
    let depth = 10_000;
    let mut text = String::new();
    for _ in 0..depth {
        text.push('[');
    }
    for _ in 0..depth {
        text.push(']');
    }
    let mut v = parse_str(&text).expect("deep parse failed");
    let mut levels = 0;
    loop {
        match v {
            JsonValue::Array(mut items) => {
                levels += 1;
                match items.pop() {
                    Some(inner) => v = inner,
                    None => break,
                }
            }
            _ => panic!("Expected arrays all the way down"),
        }
    }
    assert_eq!(levels, depth);
}

#[test]
fn error_position_line_and_column() {
    let err = parse_str("{\n  \"a\": x}").expect_err("must fail");
    assert_eq!(err.kind, ParseErrorKind::UnexpectedCharacter('x'));
    assert_eq!(err.offset, 9);
    assert_eq!(err.line, 2);
    assert_eq!(err.column, 8);
}

#[test]
fn error_points_at_the_bad_token() {
    let err = parse_str("[1e,]").expect_err("must fail");
    assert_eq!(err.kind, ParseErrorKind::UnexpectedCharacter(','));
    assert_eq!(err.offset, 3);
}

#[test]
fn unicode_escape_plain() {
    let parsed = parse_str("\"\\u0041\\u00e9\"").expect("parse failed");
    assert_eq!(parsed, JsonValue::String(String::from("A\u{e9}")));
}

#[test]
fn unicode_escape_surrogate_pair() {
    let parsed = parse_str("\"\\uD83D\\uDE00\"").expect("parse failed");
    assert_eq!(parsed, JsonValue::String(String::from("\u{1F600}")));
}

#[test]
fn lone_low_surrogate_is_invalid() {
    let err = parse_str("\"\\uDC00\"").expect_err("must fail");
    assert_eq!(err.kind, ParseErrorKind::InvalidEscape('0'));
    assert_eq!(err.offset, 6);
}

#[test]
fn unknown_escape_is_invalid() {
    let err = parse_str("\"a\\qb\"").expect_err("must fail");
    assert_eq!(err.kind, ParseErrorKind::InvalidEscape('q'));
    assert_eq!(err.offset, 3);
}

#[test]
fn trailing_content_after_root() {
    let err = parse_str("true x").expect_err("must fail");
    assert_eq!(err.kind, ParseErrorKind::TrailingContent('x'));
    assert_eq!(err.offset, 5);
}

#[test]
fn duplicate_keys_last_write_wins() {
    let parsed = parse_str("{\"a\": 1, \"a\": 2}").expect("parse failed");
    match parsed {
        JsonValue::Object(entries) => {
            assert_eq!(entries.len(), 1);
            assert_eq!(entries[0].0, "a");
            assert_eq!(entries[0].1, JsonValue::Number(JsonNumber::Int(2)));
        }
        _ => panic!("Expected object"),
    }
}

#[test]
fn numbers_classify_lazily() {
    assert_eq!(
        parse_str("120").expect("int"),
        JsonValue::Number(JsonNumber::Int(120))
    );
    assert_eq!(
        parse_str("-0.5e+10").expect("float"),
        JsonValue::Number(JsonNumber::Float(String::from("-0.5e+10")))
    );
    assert_eq!(
        parse_str("2.0").expect("float stays float"),
        JsonValue::Number(JsonNumber::Float(String::from("2.0")))
    );
    let f: f64 = match parse_str("2.5").expect("float") {
        JsonValue::Number(JsonNumber::Float(s)) => s.parse().expect("float text parses"),
        _ => panic!("Expected float"),
    };
    assert_eq!(f, 2.5);
}

#[test]
fn incomplete_number_at_end_is_unterminated() {
    let err = parse_str("1e").expect_err("must fail");
    assert_eq!(err.offset, 2);
    match err.kind {
        ParseErrorKind::UnterminatedStructure(kinds) => {
            assert_eq!(kinds, vec![CtxKind::Root, CtxKind::NumberText]);
        }
        _ => panic!("Expected unterminated structure"),
    }
}

#[test]
fn empty_input_is_unterminated() {
    let err = parse_str("").expect_err("must fail");
    assert_eq!(err.kind, ParseErrorKind::UnterminatedStructure(vec![CtxKind::Root]));
    assert_eq!(err.offset, 0);
}

#[test]
fn bareword_literals() {
    assert_eq!(parse_str("true").expect("t"), JsonValue::Bool(true));
    assert_eq!(parse_str("false").expect("f"), JsonValue::Bool(false));
    assert_eq!(parse_str("null").expect("n"), JsonValue::Null);
    let err = parse_str("nul").expect_err("must fail");
    assert_eq!(err.offset, 3);
}

#[test]
fn object_key_must_be_quoted() {
    let err = parse_str("{a: 1}").expect_err("must fail");
    assert_eq!(err.kind, ParseErrorKind::UnexpectedCharacter('a'));
    assert_eq!(err.offset, 1);
}

#[test]
fn comma_in_object_demands_a_member() {
    let err = parse_str("{\"a\": 1,}").expect_err("must fail");
    assert_eq!(err.kind, ParseErrorKind::UnexpectedCharacter('}'));
    assert_eq!(err.offset, 8);
}

#[test]
fn document_round_trip_through_text() {
    let source = "{\"a\": 1, \"b\": [true, null, 2.5], \"c\": {\"d\": \"x\\ny\"}}";
    let parsed = parse_str(source).expect("parse failed");
    let rendered = parsed.to_text();
    assert_eq!(rendered, source);
    let again = parse_str(&rendered).expect("second parse failed");
    assert_eq!(again, parsed);
}

#[test]
fn number_to_text() {
    assert_eq!(JsonNumber::Int(-42).to_text(), "-42");
    assert_eq!(JsonNumber::Int(0).to_text(), "0");
    assert_eq!(JsonNumber::Int(i64::MIN).to_text(), "-9223372036854775808");
    assert_eq!(JsonNumber::Float(String::from("2.5e1")).to_text(), "2.5e1");
}

#[test]
fn whitespace_only_input_is_unterminated() {
    let err = parse_str("  \t\r\n ").expect_err("must fail");
    assert_eq!(err.kind, ParseErrorKind::UnterminatedStructure(vec![CtxKind::Root]));
    assert_eq!(err.offset, 6);
}

#[test]
fn float_text_always_carries_dot_or_exponent() {
    for doc in ["2.5", "1e3", "-0.5E+10", "120"] {
        match parse_str(doc).expect("parse") {
            JsonValue::Number(JsonNumber::Float(s)) => {
                assert!(s.contains('.') || s.contains('e') || s.contains('E'));
            }
            JsonValue::Number(JsonNumber::Int(_)) => {
                assert!(!doc.contains('.') && !doc.contains('e') && !doc.contains('E'));
            }
            _ => panic!("Expected a number"),
        }
    }
}
