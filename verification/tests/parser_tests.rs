use key_value_parser::grammar::ErrorKind;
use key_value_parser::lookup::parse;
use key_value_parser::scan::parse_value;
use key_value_parser::scan::StringOrStr;
use key_value_parser::table::Parser;

#[test]
fn full_almost_zero_copy_test_happy_path() {
    let data: &str = "  key = value   ";
    let parser = Parser::new(data).unwrap();

    assert_eq!(parser.len(), 1);

    let value = parser.get("key").unwrap();
    assert_eq!(value, "value");
}

#[test]
fn full_almost_zero_copy_test_happy_path_multiple_values() {
    let data: &str = "  key = value  key2=value2 ";
    let parser = Parser::new(data).unwrap();

    assert_eq!(parser.len(), 2);

    let value = parser.get("key").unwrap();
    assert_eq!(value, "value");

    let value = parser.get("key2").unwrap();
    assert_eq!(value, "value2");
}

#[test]
fn full_almost_zero_copy_test_handles_quotes() {
    let data: &str = "  key = \"value\"  key2=\"value2 with spaces\" ";
    let parser = Parser::new(data).unwrap();

    assert_eq!(parser.len(), 2);

    let value = parser.get("key").unwrap();
    assert_eq!(value, "value");

    let value = parser.get("key2").unwrap();
    assert_eq!(value, "value2 with spaces");
}

#[test]
fn full_almost_zero_copy_test_quoted_with_escape_characters() {
    let data: &str = "key=\"value with \\\"escaped\\\" quotes\"";

    let parser = Parser::new(data).unwrap();

    assert_eq!(parser.len(), 1);

    let value = parser.get("key").unwrap();
    assert_eq!(value, "value with \"escaped\" quotes");
}

#[test]
fn test_bench_pattern() {
    let data: &str = "kkkkkkkkkk2=\"vvvvv\\\"ttttt2\" kkkkkkkkkk3=\"vvvvv\\\"ttttt3\" ";
    let parser = Parser::new(data).unwrap();
    assert_eq!(parser.len(), 2);
    let value = parser.get("kkkkkkkkkk2").unwrap();
    assert_eq!(value, "vvvvv\"ttttt2");
    let value = parser.get("kkkkkkkkkk3").unwrap();
    assert_eq!(value, "vvvvv\"ttttt3");
}

#[test]
fn full_almost_zero_copy_test_no_data() {
    let data: &str = "   ";

    let parser = Parser::new(data).unwrap();

    assert_eq!(parser.len(), 0);
}

#[test]
fn full_almost_zero_copy_test_bad_parsing() {
    let bad_data: &[&str] = &[" foo ", "bar", ";foo=bar", "quoted=\"foo"];
    for data in bad_data {
        let parser = Parser::new(data);
        assert!(parser.is_err(), "Should have failed to parse: {:?}", data);
    }
}

#[test]
fn lib_test_happy_path() {
    let data: &str = "  key = value   ";
    let parser = Parser::new(data).unwrap();

    assert_eq!(parser.len(), 1);

    let value = parser.get("key").unwrap();
    assert_eq!(value, "value");
}

#[test]
fn lib_test_happy_path_multiple_values() {
    let data: &str = "  key = value  key2=value2 ";
    let parser = Parser::new(data).unwrap();

    assert_eq!(parser.len(), 2);

    let value = parser.get("key").unwrap();
    assert_eq!(value, "value");

    let value = parser.get("key2").unwrap();
    assert_eq!(value, "value2");
}

#[test]
fn lib_test_handles_quotes() {
    let data: &str = "  key = \"value\"  key2=\"value2 with spaces\" ";
    let parser = Parser::new(data).unwrap();

    assert_eq!(parser.len(), 2);

    let value = parser.get("key").unwrap();
    assert_eq!(value, "value");

    let value = parser.get("key2").unwrap();
    assert_eq!(value, "value2 with spaces");
}

#[test]
fn lib_test_quoted_with_escape_characters() {
    let data: &str = "key=\"value with \\\"escaped\\\" quotes\"";

    let parser = Parser::new(data).unwrap();

    assert_eq!(parser.len(), 1);

    let value = parser.get("key").unwrap();
    assert_eq!(value, "value with \"escaped\" quotes");
}

#[test]
fn lib_test_no_data() {
    let data: &str = "   ";

    let parser = Parser::new(data).unwrap();

    assert_eq!(parser.len(), 0);
}

#[test]
fn lib_test_bad_parsing() {
    let bad_data: &[&str] = &[" foo ", "bar", ";foo=bar", "quoted=\"foo"];
    for data in bad_data {
        let parser = Parser::new(data);
        assert!(parser.is_err(), "Should have failed to parse: {:?}", data);
    }
}

#[test]
fn zero_copy_test_happy_path() {
    let data: &str = "  key = value   ";
    let parser = Parser::new(data).unwrap();

    assert_eq!(parser.len(), 1);

    let value = parser.get("key").unwrap();
    assert_eq!(value, "value");
}

#[test]
fn zero_copy_test_happy_path_multiple_values() {
    let data: &str = "  key = value  key2=value2 ";
    let parser = Parser::new(data).unwrap();

    assert_eq!(parser.len(), 2);

    let value = parser.get("key").unwrap();
    assert_eq!(value, "value");

    let value = parser.get("key2").unwrap();
    assert_eq!(value, "value2");
}

#[test]
fn zero_copy_test_handles_quotes() {
    let data: &str = "  key = \"value\"  key2=\"value2 with spaces\" ";
    let parser = Parser::new(data).unwrap();

    assert_eq!(parser.len(), 2);

    let value = parser.get("key").unwrap();
    assert_eq!(value, "value");

    let value = parser.get("key2").unwrap();
    assert_eq!(value, "value2 with spaces");
}

#[test]
fn zero_copy_test_no_data() {
    let data: &str = "   ";

    let parser = Parser::new(data).unwrap();

    assert_eq!(parser.len(), 0);
}

#[test]
fn zero_copy_test_bad_parsing() {
    let bad_data: &[&str] = &[" foo ", "bar", ";foo=bar", "quoted=\"foo"];
    for data in bad_data {
        let parser = Parser::new(data);
        assert!(parser.is_err(), "Should have failed to parse: {:?}", data);
    }
}

#[test]
fn zero_parse_test_happy_path() {
    let data: &str = "one=1 two=2 three=three quoted=\"this is a quoted value\" escaped=\"this is a value with \\\"escaped\\\" quotes\"";

    let parser = Parser::new(data).unwrap();
    assert_eq!(parser.len(), 5);
    assert_eq!(parser.get("one").unwrap(), "1");
    assert_eq!(parser.get("two").unwrap(), "2");
    assert_eq!(parser.get("three").unwrap(), "three");
    assert_eq!(parser.get("quoted").unwrap(), "this is a quoted value");
    assert_eq!(
        parser.get("escaped").unwrap(),
        "this is a value with \"escaped\" quotes"
    );

    assert_eq!(parse(data, "one").unwrap().as_str(), "1");
    assert_eq!(parse(data, "two").unwrap().as_str(), "2");
    assert_eq!(parse(data, "three").unwrap().as_str(), "three");
    assert_eq!(
        parse(data, "quoted").unwrap().as_str(),
        "this is a quoted value"
    );
    assert_eq!(
        parse(data, "escaped").unwrap().as_str(),
        "this is a value with \"escaped\" quotes"
    );

    assert!(parse(data, "four").is_err());
}

#[test]
fn test_build_empty_string() {
    let parser = Parser::new("").unwrap();
    assert_eq!(parser.len(), 0);
    assert!(parser.is_empty());
}

#[test]
fn test_escaped_quote_becomes_literal() {
    let parser = Parser::new("key=\"va\\\"lue\"").unwrap();
    assert_eq!(parser.len(), 1);
    assert_eq!(parser.get("key").unwrap(), "va\"lue");
}

#[test]
fn test_duplicate_key_last_wins() {
    let parser = Parser::new("a=1 b=x a=2").unwrap();
    assert_eq!(parser.len(), 2);
    assert_eq!(parser.get("a").unwrap(), "2");
    assert_eq!(parser.get("b").unwrap(), "x");
    // The targeted lookup stops at the first occurrence instead.
    assert_eq!(parse("a=1 b=x a=2", "a").unwrap().as_str(), "1");
}

#[test]
fn test_empty_unquoted_value() {
    // Whitespace after `=` is skipped before the value is read, so the value
    // is empty only when the input ends there.
    let parser = Parser::new("k=").unwrap();
    assert_eq!(parser.len(), 1);
    assert_eq!(parser.get("k").unwrap(), "");

    let parser = Parser::new("k= ").unwrap();
    assert_eq!(parser.len(), 1);
    assert_eq!(parser.get("k").unwrap(), "");

    let parser = Parser::new("k= x=1").unwrap();
    assert_eq!(parser.len(), 1);
    assert_eq!(parser.get("k").unwrap(), "x=1");
}

#[test]
fn test_key_alphabet() {
    let parser = Parser::new("a-b_9=ok AZ09=2").unwrap();
    assert_eq!(parser.len(), 2);
    assert_eq!(parser.get("a-b_9").unwrap(), "ok");
    assert_eq!(parser.get("AZ09").unwrap(), "2");
}

#[test]
fn test_mixed_whitespace() {
    let parser = Parser::new("\t k \t=\n\rv \n").unwrap();
    assert_eq!(parser.len(), 1);
    assert_eq!(parser.get("k").unwrap(), "v");
}

#[test]
fn test_error_kinds_and_offsets() {
    let e = Parser::new(";foo=bar").unwrap_err();
    assert_eq!(e.kind, ErrorKind::MalformedKey);
    assert_eq!(e.offset, 0);

    let e = Parser::new("bar").unwrap_err();
    assert_eq!(e.kind, ErrorKind::MissingDelimiter);
    assert_eq!(e.offset, 3);

    let e = Parser::new(" foo ").unwrap_err();
    assert_eq!(e.kind, ErrorKind::MissingDelimiter);

    let e = Parser::new("quoted=\"foo").unwrap_err();
    assert_eq!(e.kind, ErrorKind::UnterminatedQuotedValue);
    assert_eq!(e.offset, 7);

    let e = parse("a=1 b=2", "c").unwrap_err();
    assert_eq!(e.kind, ErrorKind::KeyNotFound);
    assert_eq!(e.offset, 7);
}

#[test]
fn test_lookup_fails_like_build_on_malformed_input() {
    let bad_data: &[&str] = &[" foo ", "bar", ";foo=bar", "quoted=\"foo"];
    for data in bad_data {
        let r = parse(data, "foo");
        assert!(r.is_err(), "Should have failed to parse: {:?}", data);
    }
}

#[test]
fn test_lookup_is_sequential() {
    // A malformed pair before the match fails the call, even though the key
    // stands further on.
    let e = parse("=5 a=1", "a").unwrap_err();
    assert_eq!(e.kind, ErrorKind::MalformedKey);
    // A malformed pair after the match is never reached.
    assert_eq!(parse("a=1 ;broken", "a").unwrap().as_str(), "1");
    // Skipping a quoted value traverses its escaped quotes correctly.
    assert_eq!(parse("q=\"x \\\" y\" a=2", "a").unwrap().as_str(), "2");
}

#[test]
fn test_values_borrow_unless_escaped() {
    let (v, end) = parse_value("abc def", 0).unwrap();
    assert!(v.is_borrowed());
    assert_eq!(v.as_str(), "abc");
    assert_eq!(end, 3);

    let (v, end) = parse_value("\"a b\" rest", 0).unwrap();
    assert!(v.is_borrowed());
    assert_eq!(v.as_str(), "a b");
    assert_eq!(end, 5);

    let (v, _) = parse_value("\"a\\\"b\"", 0).unwrap();
    assert!(!v.is_borrowed());
    assert_eq!(v.as_str(), "a\"b");

    let (v, _) = parse_value("\"a\\\\b\"", 0).unwrap();
    assert!(!v.is_borrowed());
    assert_eq!(v.as_str(), "a\\b");

    // No interpretation of conventional escapes: `\n` is a literal `n`.
    let (v, _) = parse_value("\"a\\nb\"", 0).unwrap();
    assert_eq!(v.as_str(), "anb");

    assert!(parse("plain=value", "plain").unwrap().is_borrowed());
    assert!(!parse("esc=\"a\\\"b\"", "esc").unwrap().is_borrowed());
}

#[test]
fn test_value_conversions() {
    let v = StringOrStr::from("abc");
    assert!(v.is_borrowed());
    assert_eq!(v.as_str(), "abc");

    let v = StringOrStr::from(String::from("abc"));
    assert!(!v.is_borrowed());
    assert_eq!(v.as_str(), "abc");
}
