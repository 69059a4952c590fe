//! End-to-end tests of the parser: the literal round trips, the ordering
//! and lookup guarantees, and the separator handling inside quotes and
//! nested brackets.
use json_parser::parse;
use json_parser::JsonObjectKey;
use json_parser::JsonValue;
use json_parser::ParseError;

fn cv(s: &str) -> Vec<char> {
    s.chars().collect()
}

#[test]
fn parse_null_literal() {
    assert_eq!(parse("null"), Ok(JsonValue::JsonNull));
}

#[test]
fn parse_bool_literals() {
    assert_eq!(parse("true"), Ok(JsonValue::JsonBoolValue(true)));
    assert_eq!(parse("false"), Ok(JsonValue::JsonBoolValue(false)));
}

#[test]
fn parse_empty_string_literal() {
    assert_eq!(parse("\"\""), Ok(JsonValue::JsonString(Vec::new())));
}

#[test]
fn parse_empty_array_literal() {
    assert_eq!(parse("[]"), Ok(JsonValue::JsonArray(Vec::new())));
}

#[test]
fn parse_empty_object_literal() {
    assert_eq!(parse("{}"), Ok(JsonValue::JsonObject(Vec::new())));
}

#[test]
fn array_elements_keep_source_order() {
    let parsed = parse("[1,2,3]").unwrap();
    let elems = match parsed {
        JsonValue::JsonArray(elems) => elems,
        _ => panic!("expected an array"),
    };
    assert_eq!(
        elems,
        vec![
            JsonValue::JsonNumber(cv("1")),
            JsonValue::JsonNumber(cv("2")),
            JsonValue::JsonNumber(cv("3")),
        ]
    );
}

#[test]
fn object_keys_are_retrievable() {
    let parsed = parse("{\"a\":1,\"b\":2}").unwrap();
    let a = parsed.object_get(&JsonObjectKey::new("a"));
    assert_eq!(a, Some(&JsonValue::JsonNumber(cv("1"))));
    let b = parsed.object_get(&JsonObjectKey::new("b"));
    assert_eq!(b, Some(&JsonValue::JsonNumber(cv("2"))));
    let c = parsed.object_get(&JsonObjectKey::new("c"));
    assert_eq!(c, None);
}

#[test]
fn separators_inside_quotes_are_not_structural() {
    let parsed = parse("{\"k\":\"a,b:c\"}").unwrap();
    let members = match &parsed {
        JsonValue::JsonObject(members) => members,
        _ => panic!("expected an object"),
    };
    assert_eq!(members.len(), 1);
    let v = parsed.object_get(&JsonObjectKey::new("k"));
    assert_eq!(v, Some(&JsonValue::JsonString(cv("a,b:c"))));
}

#[test]
fn nested_brackets_do_not_close_the_outer_split() {
    let parsed = parse("[[1,2],[3,4]]").unwrap();
    let elems = match parsed {
        JsonValue::JsonArray(elems) => elems,
        _ => panic!("expected an array"),
    };
    assert_eq!(elems.len(), 2);
    assert_eq!(
        elems[0],
        JsonValue::JsonArray(vec![
            JsonValue::JsonNumber(cv("1")),
            JsonValue::JsonNumber(cv("2")),
        ])
    );
    assert_eq!(
        elems[1],
        JsonValue::JsonArray(vec![
            JsonValue::JsonNumber(cv("3")),
            JsonValue::JsonNumber(cv("4")),
        ])
    );
}

#[test]
fn malformed_input_yields_no_partial_tree() {
    assert_eq!(parse("{\"a\":}"), Err(ParseError::Unparseable));
}

#[test]
fn duplicate_keys_last_write_wins() {
    let parsed = parse("{\"a\":1,\"a\":2}").unwrap();
    let members = match &parsed {
        JsonValue::JsonObject(members) => members,
        _ => panic!("expected an object"),
    };
    assert_eq!(members.len(), 1);
    let a = parsed.object_get(&JsonObjectKey::new("a"));
    assert_eq!(a, Some(&JsonValue::JsonNumber(cv("2"))));
}

#[test]
fn whitespace_outside_strings_is_insignificant() {
    assert_eq!(parse("[ 1 , 2 ]"), parse("[1,2]"));
    assert_eq!(parse("[\n\t1,\n\t2\n]"), parse("[1,2]"));
}

#[test]
fn whitespace_inside_strings_is_preserved() {
    assert_eq!(parse("\"a b\""), Ok(JsonValue::JsonString(cv("a b"))));
    let parsed = parse("{ \"k\" : \"a b\" }").unwrap();
    let v = parsed.object_get(&JsonObjectKey::new("k"));
    assert_eq!(v, Some(&JsonValue::JsonString(cv("a b"))));
}

#[test]
fn unicode_whitespace_outside_strings_is_insignificant() {
    assert_eq!(parse("[\u{000C}1,\u{00A0}2\u{2028}]"), parse("[1,2]"));
    assert_eq!(
        parse("{\u{000B}\"a\"\u{3000}:\u{2003}1\u{0085}}"),
        parse("{\"a\":1}")
    );
}

#[test]
fn unicode_whitespace_inside_strings_is_preserved() {
    assert_eq!(
        parse("\"a\u{00A0}b\""),
        Ok(JsonValue::JsonString(cv("a\u{00A0}b")))
    );
    let parsed = parse("{\"k\":\"a\u{3000}b\"}").unwrap();
    let v = parsed.object_get(&JsonObjectKey::new("k"));
    assert_eq!(v, Some(&JsonValue::JsonString(cv("a\u{3000}b"))));
}

#[test]
fn large_integers_lose_exactness_as_doubles() {
    // The tree keeps the numeric text exactly; the loss happens only at
    // the caller's conversion to a double, where neighbouring large
    // integers collapse to one value.
    let parsed = parse("9007199254740993").unwrap();
    let text: String = match parsed {
        JsonValue::JsonNumber(t) => t.into_iter().collect(),
        _ => panic!("expected a number"),
    };
    assert_eq!(text, "9007199254740993");
    let as_double: f64 = text.parse().unwrap();
    let neighbour: f64 = "9007199254740992".parse().unwrap();
    assert_eq!(as_double, neighbour);
}

#[test]
fn nested_invoice_object() {
    let doc = "[{\"billTo\": {\"name\": \"Ada\", \"zip\": \"12345\"}, \"total\": 12.5}]";
    let parsed = parse(doc).unwrap();
    let elems = match parsed {
        JsonValue::JsonArray(elems) => elems,
        _ => panic!("expected an array"),
    };
    let bill_to = elems[0].object_get(&JsonObjectKey::new("billTo"));
    let bill_to = match bill_to {
        Some(v) => v,
        None => panic!("expected a billTo member"),
    };
    let zip = bill_to.object_get(&JsonObjectKey::new("zip"));
    assert_eq!(zip, Some(&JsonValue::JsonString(cv("12345"))));
}
