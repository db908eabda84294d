use bellande_format::BellandeFormat;
use bellande_format::parser::ParseError;
use bellande_format::value::BellandeValue;

fn parse(text: &str) -> Result<BellandeValue, ParseError> {
    let fmt = BellandeFormat;
    fmt.parse_text(text.as_bytes())
}

fn parse_ok(text: &str) -> BellandeValue {
    parse(text).unwrap()
}

fn text(s: &str) -> BellandeValue {
    BellandeValue::Text(s.as_bytes().to_vec())
}

fn entry(k: &str, v: BellandeValue) -> (Vec<u8>, BellandeValue) {
    (k.as_bytes().to_vec(), v)
}

#[test]
fn duplicate_key_last_wins() {
    let got = parse_ok("a: 1\na: 2");
    let want = BellandeValue::Mapping(vec![entry("a", BellandeValue::Integer(2))]);
    assert_eq!(got, want);
}

#[test]
fn boolean_case_insensitive() {
    for src in ["flag: TRUE", "flag: True", "flag: true"] {
        let got = parse_ok(src);
        let want = BellandeValue::Mapping(vec![entry("flag", BellandeValue::Boolean(true))]);
        assert_eq!(got, want);
    }
    let got = parse_ok("flag: FaLsE");
    let want = BellandeValue::Mapping(vec![entry("flag", BellandeValue::Boolean(false))]);
    assert_eq!(got, want);
}

#[test]
fn null_case_insensitive() {
    let got = parse_ok("n: NULL");
    let want = BellandeValue::Mapping(vec![entry("n", BellandeValue::Null)]);
    assert_eq!(got, want);
}

#[test]
fn quoting_distinguishes_types() {
    let got = parse_ok("n: 42");
    let want = BellandeValue::Mapping(vec![entry("n", BellandeValue::Integer(42))]);
    assert_eq!(got, want);

    let got = parse_ok("n: \"42\"");
    let want = BellandeValue::Mapping(vec![entry("n", text("42"))]);
    assert_eq!(got, want);
}

#[test]
fn comments_and_blanks_are_noops() {
    let got = parse_ok("# comment\n\nkey: 1");
    let want = parse_ok("key: 1");
    assert_eq!(got, want);
}

#[test]
fn list_example() {
    let got = parse_ok("items:\n  - 1\n  - 2\n  - three");
    let want = BellandeValue::Mapping(vec![entry(
        "items",
        BellandeValue::List(vec![
            BellandeValue::Integer(1),
            BellandeValue::Integer(2),
            text("three"),
        ]),
    )]);
    assert_eq!(got, want);
}

#[test]
fn dedent_closes_scope() {
    let got = parse_ok("a:\n  - 1\nb: 2");
    let want = BellandeValue::Mapping(vec![
        entry("a", BellandeValue::List(vec![BellandeValue::Integer(1)])),
        entry("b", BellandeValue::Integer(2)),
    ]);
    assert_eq!(got, want);
}

#[test]
fn sibling_at_equal_indent_closes_scope() {
    let got = parse_ok("a:\nb: 2");
    let want = BellandeValue::Mapping(vec![
        entry("a", BellandeValue::List(vec![])),
        entry("b", BellandeValue::Integer(2)),
    ]);
    assert_eq!(got, want);
}

#[test]
fn malformed_line_with_number() {
    let got = parse("no colon or dash here");
    assert_eq!(
        got,
        Err(ParseError::MalformedLine {
            line: 1,
            content: b"no colon or dash here".to_vec()
        })
    );

    let got = parse("a: 1\n# fine\nbroken line\nb: 2");
    assert_eq!(
        got,
        Err(ParseError::MalformedLine {
            line: 3,
            content: b"broken line".to_vec()
        })
    );
}

#[test]
fn unresolved_path_under_list_placeholder() {
    let got = parse("a:\n  b: 1");
    assert_eq!(
        got,
        Err(ParseError::UnresolvedPath { line: 2, key: b"a".to_vec() })
    );
}

#[test]
fn top_level_item_line_is_unresolved() {
    let got = parse("- 1");
    assert_eq!(
        got,
        Err(ParseError::UnresolvedPath { line: 1, key: Vec::new() })
    );
}

#[test]
fn empty_document_is_empty_mapping() {
    assert_eq!(parse_ok(""), BellandeValue::Mapping(vec![]));
    assert_eq!(parse_ok("\n\n# only comments\n"), BellandeValue::Mapping(vec![]));
}

#[test]
fn crlf_lines_and_trailing_newline() {
    let got = parse_ok("a: 1\r\nb: two\r\n");
    let want = BellandeValue::Mapping(vec![
        entry("a", BellandeValue::Integer(1)),
        entry("b", text("two")),
    ]);
    assert_eq!(got, want);
}

#[test]
fn lexer_scalars() {
    let fmt = BellandeFormat;
    assert_eq!(fmt.parse_value(b"true"), BellandeValue::Boolean(true));
    assert_eq!(fmt.parse_value(b"False"), BellandeValue::Boolean(false));
    assert_eq!(fmt.parse_value(b"null"), BellandeValue::Null);
    assert_eq!(fmt.parse_value(b"-17"), BellandeValue::Integer(-17));
    assert_eq!(fmt.parse_value(b"0042"), BellandeValue::Integer(42));
    assert_eq!(fmt.parse_value(b"3.14"), BellandeValue::Float(b"3.14".to_vec()));
    assert_eq!(fmt.parse_value(b"-2e10"), BellandeValue::Float(b"-2e10".to_vec()));
    assert_eq!(fmt.parse_value(b".5"), BellandeValue::Float(b".5".to_vec()));
    assert_eq!(fmt.parse_value(b"\"a b\""), text("a b"));
    assert_eq!(fmt.parse_value(b"plain"), text("plain"));
    assert_eq!(fmt.parse_value(b""), text(""));
    // an unquoted inf/nan token is text, not a float
    assert_eq!(fmt.parse_value(b"inf"), text("inf"));
    assert_eq!(fmt.parse_value(b"nan"), text("nan"));
}

#[test]
fn lexer_integer_bounds() {
    let fmt = BellandeFormat;
    assert_eq!(
        fmt.parse_value(b"9223372036854775807"),
        BellandeValue::Integer(9223372036854775807)
    );
    assert_eq!(
        fmt.parse_value(b"-9223372036854775808"),
        BellandeValue::Integer(-9223372036854775808)
    );
    // one past the bound no longer lexes as an integer, but still as a float
    assert_eq!(
        fmt.parse_value(b"9223372036854775808"),
        BellandeValue::Float(b"9223372036854775808".to_vec())
    );
}

#[test]
fn format_scalars() {
    let fmt = BellandeFormat;
    assert_eq!(fmt.format_value(&BellandeValue::Integer(-5)), b"-5".to_vec());
    assert_eq!(fmt.format_value(&BellandeValue::Integer(120)), b"120".to_vec());
    assert_eq!(fmt.format_value(&BellandeValue::Boolean(true)), b"true".to_vec());
    assert_eq!(fmt.format_value(&BellandeValue::Null), b"null".to_vec());
    assert_eq!(fmt.format_value(&text("plain")), b"plain".to_vec());
    assert_eq!(fmt.format_value(&text("a b")), b"\"a b\"".to_vec());
    assert_eq!(fmt.format_value(&text("a:b")), b"\"a:b\"".to_vec());
    assert_eq!(fmt.format_value(&text("TRUE")), b"\"TRUE\"".to_vec());
    assert_eq!(fmt.format_value(&BellandeValue::Float(b"2.5".to_vec())), b"2.5".to_vec());
}

#[test]
fn lex_format_lex_is_idempotent() {
    let fmt = BellandeFormat;
    for tok in ["true", "FALSE", "Null", "42", "-7", "2.5e-3", "\"quoted text\"", "plain", "a b: c"]
    {
        let first = fmt.parse_value(tok.as_bytes());
        let rendered = fmt.format_value(&first);
        let second = fmt.parse_value(&rendered);
        assert_eq!(first, second);
    }
}

#[test]
fn serialize_canonical_text() {
    let fmt = BellandeFormat;
    let v = BellandeValue::Mapping(vec![
        entry("a", BellandeValue::Integer(1)),
        entry(
            "items",
            BellandeValue::List(vec![BellandeValue::Integer(2), text("three four")]),
        ),
        entry("b", text("x")),
    ]);
    let out = fmt.to_bellande_string(&v, 0);
    let want = "a: 1\nitems:\n  - 2\n  - \"three four\"\nb: x";
    assert_eq!(String::from_utf8(out).unwrap(), want.to_string());
}

#[test]
fn value_round_trip() {
    let fmt = BellandeFormat;
    let v = BellandeValue::Mapping(vec![
        entry("name", text("widget")),
        entry("count", BellandeValue::Integer(12)),
        entry("ratio", BellandeValue::Float(b"0.5".to_vec())),
        entry("on", BellandeValue::Boolean(true)),
        entry("off", BellandeValue::Boolean(false)),
        entry("nothing", BellandeValue::Null),
        entry(
            "tags",
            BellandeValue::List(vec![text("x"), BellandeValue::Integer(3), text("two words")]),
        ),
        entry("empty", BellandeValue::List(vec![])),
    ]);
    let out = fmt.to_bellande_string(&v, 0);
    let back = fmt.parse_text(&out).unwrap();
    assert_eq!(back, v);
}

#[test]
fn deeper_indent_does_not_pop() {
    // the list stays open while items are indented deeper than the key
    let got = parse_ok("a:\n    - 1\n    - 2");
    let want = BellandeValue::Mapping(vec![entry(
        "a",
        BellandeValue::List(vec![BellandeValue::Integer(1), BellandeValue::Integer(2)]),
    )]);
    assert_eq!(got, want);
}

#[test]
fn key_line_value_replaces_list() {
    // re-binding a key replaces its earlier value and keeps its position
    let got = parse_ok("a:\nb: 1\na: 2");
    let want = BellandeValue::Mapping(vec![
        entry("a", BellandeValue::Integer(2)),
        entry("b", BellandeValue::Integer(1)),
    ]);
    assert_eq!(got, want);
}
