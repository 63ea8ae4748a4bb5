use jf::{format_value, number_value, parse, IndentUnit, LayoutStyle, ParseErrorKind, UnrepresentableValue, Value};

fn spaces(count: usize) -> LayoutStyle {
    LayoutStyle::Indented { unit: IndentUnit::Space, count }
}

fn tabs(count: usize) -> LayoutStyle {
    LayoutStyle::Indented { unit: IndentUnit::Tab, count }
}

fn reformat(text: &str, style: LayoutStyle) -> String {
    format_value(&parse(text).unwrap(), &style)
}

#[test]
fn indent_fidelity() {
    let out = reformat(r#"{"a":1,"b":[2,3]}"#, spaces(2));
    assert_eq!(out, "{\n  \"a\": 1,\n  \"b\": [\n    2,\n    3\n  ]\n}");
}

#[test]
fn compact_exactness() {
    let out = reformat("{ \"a\" : 1 ,\n \"b\" : [ 2 , 3 ] }", LayoutStyle::Compact);
    assert_eq!(out, r#"{"a":1,"b":[2,3]}"#);
}

#[test]
fn empty_containers_stay_on_one_line() {
    for style in [spaces(0), spaces(2), spaces(8), tabs(1), tabs(3)] {
        assert_eq!(reformat("{ }", style), "{}");
        assert_eq!(reformat("[\n]", style), "[]");
        assert_eq!(reformat(r#"{"a":[],"b":{}}"#, style).matches('\n').count(), 3);
    }
}

#[test]
fn duplicate_keys_last_value_wins() {
    let v = parse(r#"{"x":1,"x":2}"#).unwrap();
    assert_eq!(v, Value::Object(vec![("x".to_string(), Value::Number("2".to_string()))]));
}

#[test]
fn duplicate_key_keeps_first_position() {
    let out = reformat(r#"{"x":1,"y":2,"x":3}"#, LayoutStyle::Compact);
    assert_eq!(out, r#"{"x":3,"y":2}"#);
}

#[test]
fn malformed_input_rejected() {
    assert!(parse(r#"{"a":}"#).is_err());
    assert!(parse("[1,2,]").is_err());
    assert_eq!(parse("").unwrap_err().kind, ParseErrorKind::UnexpectedEnd);
    assert_eq!(parse("  \n ").unwrap_err().kind, ParseErrorKind::UnexpectedEnd);
}

#[test]
fn tab_style_one_tab_per_level() {
    let out = reformat(r#"{"a":[1,{"b":null}]}"#, tabs(1));
    assert_eq!(out, "{\n\t\"a\": [\n\t\t1,\n\t\t{\n\t\t\t\"b\": null\n\t\t}\n\t]\n}");
}

#[test]
fn zero_count_breaks_lines_without_indent() {
    assert_eq!(reformat("[1,2]", spaces(0)), "[\n1,\n2\n]");
    assert_eq!(reformat(r#"{"k":true}"#, tabs(0)), "{\n\"k\": true\n}");
}

#[test]
fn key_order_is_kept() {
    assert_eq!(reformat(r#"{"b":1,"a":2,"c":false}"#, LayoutStyle::Compact), r#"{"b":1,"a":2,"c":false}"#);
}

#[test]
fn numbers_are_kept_verbatim() {
    let out = reformat("[1.50, -0, 1e2, 2E-3, 12345678901234567890, 0.1e+7]", LayoutStyle::Compact);
    assert_eq!(out, "[1.50,-0,1e2,2E-3,12345678901234567890,0.1e+7]");
}

#[test]
fn invalid_numbers_rejected() {
    assert_eq!(parse("01").unwrap_err().kind, ParseErrorKind::TrailingContent);
    assert_eq!(parse("+1").unwrap_err().kind, ParseErrorKind::UnexpectedChar);
    assert_eq!(parse("1.").unwrap_err().kind, ParseErrorKind::InvalidNumber);
    assert_eq!(parse(".5").unwrap_err().kind, ParseErrorKind::UnexpectedChar);
    assert_eq!(parse("-").unwrap_err().kind, ParseErrorKind::InvalidNumber);
    assert_eq!(parse("1e").unwrap_err().kind, ParseErrorKind::InvalidNumber);
    assert_eq!(parse("NaN").unwrap_err().kind, ParseErrorKind::UnexpectedChar);
    assert!(parse("0x10").is_err());
}

#[test]
fn string_escapes_are_decoded() {
    let v = parse(r#""q\"b\\s\/n\nt\tuA😀é""#).unwrap();
    assert_eq!(v, Value::Str("q\"b\\s/n\nt\tuA\u{1F600}\u{e9}".to_string()));
}

#[test]
fn strings_are_escaped_on_output() {
    let v = Value::Str("a\"b\\c\n\r\t\u{8}\u{c}\u{1}\u{1f}\u{7f}é/".to_string());
    assert_eq!(format_value(&v, &LayoutStyle::Compact), "\"a\\\"b\\\\c\\n\\r\\t\\b\\f\\u0001\\u001f\u{7f}é/\"");
}

#[test]
fn invalid_strings_rejected() {
    assert_eq!(parse(r#""abc"#).unwrap_err().kind, ParseErrorKind::UnexpectedEnd);
    assert_eq!(parse(r#""\ud800""#).unwrap_err().kind, ParseErrorKind::InvalidString);
    assert_eq!(parse(r#""\udc00""#).unwrap_err().kind, ParseErrorKind::InvalidString);
    assert_eq!(parse(r#""\x""#).unwrap_err().kind, ParseErrorKind::InvalidString);
    assert_eq!(parse(r#""\u12g4""#).unwrap_err().kind, ParseErrorKind::InvalidString);
    assert_eq!(parse("\"a\u{1}b\"").unwrap_err().kind, ParseErrorKind::InvalidString);
}

#[test]
fn structural_errors() {
    assert_eq!(parse("[1 2]").unwrap_err().kind, ParseErrorKind::UnexpectedChar);
    assert_eq!(parse("[1,2").unwrap_err().kind, ParseErrorKind::UnexpectedEnd);
    assert_eq!(parse(r#"{"a" 1}"#).unwrap_err().kind, ParseErrorKind::UnexpectedChar);
    assert_eq!(parse("{1:2}").unwrap_err().kind, ParseErrorKind::UnexpectedChar);
    assert_eq!(parse("tru").unwrap_err().kind, ParseErrorKind::UnexpectedChar);
    assert_eq!(parse("nul").unwrap_err().kind, ParseErrorKind::UnexpectedChar);
    let err = parse("[1] x").unwrap_err();
    assert_eq!(err.kind, ParseErrorKind::TrailingContent);
    assert_eq!(err.position, 4);
    assert!(!err.description().is_empty());
}

#[test]
fn literals_and_whitespace() {
    let v = parse(" \t\r\n[ true , false , null ] \n").unwrap();
    assert_eq!(v, Value::Array(vec![Value::Bool(true), Value::Bool(false), Value::Null]));
}

#[test]
fn reparse_gives_the_same_value() {
    let text = r#"{"name":"x\ty","list":[1,-2.5e3,[],{},[{"deep":[null,true]}]],"e":{}}"#;
    let v = parse(text).unwrap();
    for style in [LayoutStyle::Compact, spaces(2), spaces(0), tabs(1), tabs(2)] {
        let out = format_value(&v, &style);
        assert_eq!(parse(&out).unwrap(), v);
        assert_eq!(format_value(&parse(&out).unwrap(), &style), out);
    }
    assert_eq!(format_value(&v, &LayoutStyle::Compact), text);
}

#[test]
fn number_values_are_checked_at_construction() {
    assert_eq!(number_value("-12.5e3"), Ok(Value::Number("-12.5e3".to_string())));
    assert_eq!(number_value("0"), Ok(Value::Number("0".to_string())));
    for bad in ["NaN", "inf", "-inf", "1.", "01", "+1", "", "1e", "1 ", "0x1f"] {
        assert_eq!(number_value(bad), Err(UnrepresentableValue));
    }
    let v = Value::Array(vec![number_value("3.25").unwrap(), Value::Null]);
    assert_eq!(format_value(&v, &LayoutStyle::Compact), "[3.25,null]");
}
