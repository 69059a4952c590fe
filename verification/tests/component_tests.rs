//! Tests of the individual components: the outer-separator splitter, the
//! whitespace normalizer, the recognizers and their diagnostics, and the
//! numeric syntax boundary cases.
use json_parser::chars_of;
use json_parser::parse;
use json_parser::parse_array;
use json_parser::parse_bool;
use json_parser::parse_null;
use json_parser::parse_number;
use json_parser::parse_object;
use json_parser::parse_string;
use json_parser::split_by_outer_separator;
use json_parser::trim_whitespaces_except_quoted;
use json_parser::JsonObjectKey;
use json_parser::JsonValue;
use json_parser::ParseError;

fn cv(s: &str) -> Vec<char> {
    s.chars().collect()
}

fn split_strings(input: &str, sep: char) -> Vec<String> {
    split_by_outer_separator(&cv(input), sep)
        .into_iter()
        .map(|f| f.into_iter().collect())
        .collect()
}

#[test]
fn splitter_cuts_plain_separators() {
    assert_eq!(split_strings("a,b,c", ','), vec!["a", "b", "c"]);
}

#[test]
fn splitter_keeps_trailing_empty_fragment() {
    assert_eq!(split_strings("a,", ','), vec!["a", ""]);
    assert_eq!(split_strings("", ','), vec![""]);
}

#[test]
fn splitter_ignores_separators_inside_quotes() {
    assert_eq!(split_strings("\"a,b\",c", ','), vec!["\"a,b\"", "c"]);
    assert_eq!(split_strings("\"k\":\"a:b\"", ':'), vec!["\"k\"", "\"a:b\""]);
}

#[test]
fn splitter_ignores_separators_inside_brackets() {
    assert_eq!(split_strings("[1,2],[3,4]", ','), vec!["[1,2]", "[3,4]"]);
    assert_eq!(split_strings("{\"a\":1},2", ','), vec!["{\"a\":1}", "2"]);
}

#[test]
fn normalizer_strips_only_unquoted_whitespace() {
    let out: String = trim_whitespaces_except_quoted(&cv(" {\"a b\" :\n\t1} "))
        .into_iter()
        .collect();
    assert_eq!(out, "{\"a b\":1}");
}

#[test]
fn object_key_holds_its_characters() {
    let key = JsonObjectKey::new("zip");
    assert_eq!(key.key, cv("zip"));
    assert_eq!(chars_of("zip"), cv("zip"));
}

#[test]
fn recognizers_report_their_own_errors() {
    assert_eq!(parse_null(&cv("nil")), Err(ParseError::InvalidNull));
    assert_eq!(parse_bool(&cv("True")), Err(ParseError::InvalidBoolean));
    assert_eq!(parse_string(&cv("\"open")), Err(ParseError::InvalidString));
    assert_eq!(parse_number(&cv("12x")), Err(ParseError::InvalidNumber));
    assert_eq!(parse_array(&cv("[1,]")), Err(ParseError::InvalidArray));
    assert_eq!(parse_object(&cv("{1:2}")), Err(ParseError::InvalidObject));
}

#[test]
fn dispatcher_reports_unparseable_when_all_fail() {
    assert_eq!(parse("@@"), Err(ParseError::Unparseable));
    assert_eq!(parse(""), Err(ParseError::Unparseable));
    assert_eq!(parse(" true "), Err(ParseError::Unparseable));
}

#[test]
fn interior_quotes_are_stripped_with_the_delimiters() {
    assert_eq!(parse("\"a\"b\""), Ok(JsonValue::JsonString(cv("ab"))));
}

#[test]
fn numeric_syntax_accepts_decimal_and_exponent_forms() {
    assert_eq!(parse("0"), Ok(JsonValue::JsonNumber(cv("0"))));
    assert_eq!(parse("-1.5e3"), Ok(JsonValue::JsonNumber(cv("-1.5e3"))));
    assert_eq!(parse("+.5"), Ok(JsonValue::JsonNumber(cv("+.5"))));
    assert_eq!(parse("2."), Ok(JsonValue::JsonNumber(cv("2."))));
    assert_eq!(parse("1E+10"), Ok(JsonValue::JsonNumber(cv("1E+10"))));
}

#[test]
fn numeric_syntax_rejects_malformed_forms() {
    assert_eq!(parse("1.2.3"), Err(ParseError::Unparseable));
    assert_eq!(parse("."), Err(ParseError::Unparseable));
    assert_eq!(parse("1e"), Err(ParseError::Unparseable));
    assert_eq!(parse("e5"), Err(ParseError::Unparseable));
    assert_eq!(parse("--1"), Err(ParseError::Unparseable));
}

#[test]
fn deep_nesting_parses() {
    let parsed = parse("[[[[1]]]]").unwrap();
    let mut level: JsonValue = parsed;
    for _ in 0..4 {
        level = match level {
            JsonValue::JsonArray(mut elems) => {
                assert_eq!(elems.len(), 1);
                elems.remove(0)
            },
            _ => panic!("expected an array"),
        };
    }
    assert_eq!(level, JsonValue::JsonNumber(cv("1")));
}
