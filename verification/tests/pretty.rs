use json_redact::chars::{chars_of, string_of};
use json_redact::pretty::presented;
use json_redact::{find_ranges, pretty_print, redact_json, FormatError};
use serde_json::Value;

fn every_leaf_is(value: &Value, leaf: &str) -> bool {
    match value {
        Value::Array(items) => items.iter().all(|item| every_leaf_is(item, leaf)),
        Value::Object(fields) => fields.values().all(|field| every_leaf_is(field, leaf)),
        Value::String(s) => s == leaf,
        _ => false,
    }
}

fn count_leaves(value: &Value) -> usize {
    match value {
        Value::Array(items) => items.iter().map(count_leaves).sum(),
        Value::Object(fields) => fields.values().map(count_leaves).sum(),
        _ => 1,
    }
}

#[test]
fn pretty_print_of_the_redacted_contacts_document() {
    let json = r#"{"name":"Alice","age":30,"contacts":[{"type":"email","value":"alice@email.com"},{"type":"phone","value":"123-456-7890"}],"isActive":true}"#;
    let keys = [vec!["contacts", "type"], vec!["name"]];
    let redacted = redact_json(json, find_ranges(json, &keys));
    let expected = "{\n  \"age\": \"<REDACTED>\",\n  \"contacts\": [\n    {\n      \"type\": \"email\",\n      \"value\": \"<REDACTED>\"\n    },\n    {\n      \"type\": \"phone\",\n      \"value\": \"<REDACTED>\"\n    }\n  ],\n  \"isActive\": \"<REDACTED>\",\n  \"name\": \"Alice\"\n}";
    assert_eq!(pretty_print(&redacted), Ok(expected.to_string()));
}

#[test]
fn pretty_print_indents_and_orders_keys() {
    assert_eq!(pretty_print(r#"{"b":1,"a":[true,null]}"#), Ok("{\n  \"a\": [\n    true,\n    null\n  ],\n  \"b\": 1\n}".to_string()));
    assert_eq!(pretty_print(" 42 "), Ok("42".to_string()));
}

#[test]
fn pretty_print_rejects_what_does_not_parse() {
    assert_eq!(pretty_print(r#"{"a":"<REDACTED>""#), Err(FormatError::Parse));
    assert_eq!(pretty_print(""), Err(FormatError::Parse));
    assert_eq!(pretty_print("{} {}"), Err(FormatError::Parse));
    assert_eq!(pretty_print(r#"{"a":1"<REDACTED>""#), Err(FormatError::Parse));
}

#[test]
fn redaction_with_no_target_parses_and_every_leaf_is_the_placeholder() {
    let documents = [
        r#"{"name":"Alice","age":30,"contacts":[{"type":"email","value":"alice@email.com"},{"type":"phone","value":"123-456-7890"}],"isActive":true}"#,
        "{\n  \"a\": 1,\n  \"b\": [1, 2],\n  \"c\": {\"d\": null}\n}\n",
        r#"[1, "two", {"k": [3.5, false]}, [[-4e2]], "a\"b", "x\\"]"#,
        r#"{"a" : {"b" : [ ] , "c" : { } } , "d":"}{" }"#,
        "\t[\r\n \"only\"\n]\n",
        r#""just a string""#,
        "null",
        " 12 ",
    ];
    for document in documents {
        let redacted = redact_json(document, find_ranges(document, &[]));
        assert!(pretty_print(&redacted).is_ok());
        let before: Value = serde_json::from_str(document).unwrap();
        let after: Value = serde_json::from_str(&redacted).unwrap();
        assert!(every_leaf_is(&after, "<REDACTED>"));
        assert_eq!(count_leaves(&after), count_leaves(&before));
    }
}

#[test]
fn redaction_with_a_target_parses_and_keeps_the_target() {
    let document = r#"{"a": {"b":"c","d":1,"e":[{"f":"g"}]}}"#;
    let redacted = redact_json(document, find_ranges(document, &[vec!["a", "e"]]));
    let before: Value = serde_json::from_str(document).unwrap();
    let after: Value = serde_json::from_str(&redacted).unwrap();
    assert_eq!(after["a"]["e"], before["a"]["e"]);
    assert_eq!(after["a"]["b"], Value::String("<REDACTED>".to_string()));
    assert_eq!(after["a"]["d"], Value::String("<REDACTED>".to_string()));
}

#[test]
fn chars_and_strings_convert_both_ways() {
    assert_eq!(chars_of("a\"é日"), vec!['a', '"', 'é', '日']);
    assert_eq!(chars_of(""), Vec::<char>::new());
    assert_eq!(string_of(&['a', '"', 'é', '日']), "a\"é日");
    assert_eq!(string_of(&[]), "");
}

#[test]
fn presented_reports_the_first_failure() {
    assert_eq!(presented(true, Some("{}".to_string())), Ok("{}".to_string()));
    assert_eq!(presented(true, None), Err(FormatError::Print));
    assert_eq!(presented(false, None), Err(FormatError::Parse));
    assert_eq!(presented(false, Some("{}".to_string())), Err(FormatError::Parse));
}
