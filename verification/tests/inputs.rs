use typst_cnd::inputs::{json_kind, load_inputs_text, merge_inputs, parse_sys_input_pair, JsonKind};

fn pair(k: &str, v: &str) -> (String, String) {
    (k.to_string(), v.to_string())
}

#[test]
fn reads_string_values() {
    let pairs = load_inputs_text("in.json", r#"{"a": "1", "b": "{\"x\": 2}"}"#, true).unwrap();
    assert_eq!(pairs, vec![("a".into(), "1".into()), ("b".into(), "{\"x\": 2}".into())]);
}

#[test]
fn keeps_whitespace_in_values() {
    assert_eq!(load_inputs_text("in.json", r#"{"a": "  padded  "}"#, true).unwrap()[0].1, "  padded  ");
}

#[test]
fn rejects_non_objects_non_strings_and_empty_keys() {
    assert!(load_inputs_text("in.json", "[]", true).unwrap_err().contains("JSON object"));
    assert!(load_inputs_text("in.json", r#"{"a": 1}"#, true).unwrap_err().contains("must be a string"));
    assert!(load_inputs_text("in.json", r#"{" ": "x"}"#, true).unwrap_err().contains("must not be empty"));
    assert!(load_inputs_text("in.json", "{", true).unwrap_err().contains("as JSON"));
}

#[test]
fn inputs_errors_name_the_file_and_the_kind_found() {
    assert_eq!(
        load_inputs_text("dir/in.json", "[1, 2, 3]", true).unwrap_err(),
        "inputs file dir/in.json must contain a JSON object at its top level, found an array"
    );
    assert_eq!(
        load_inputs_text("in.json", r#"{"k": 42}"#, true).unwrap_err(),
        "inputs file in.json: value for key \"k\" must be a string, found a number"
    );
    assert_eq!(
        load_inputs_text("in.json", r#"{"k": null}"#, true).unwrap_err(),
        "inputs file in.json: value for key \"k\" must be a string, found null"
    );
    assert_eq!(load_inputs_text("in.json", r#"{"": "x"}"#, true).unwrap_err(), "inputs file in.json: keys must not be empty");
    assert!(load_inputs_text("in.json", "nope", true).unwrap_err().starts_with("failed to parse inputs file in.json as JSON: "));
}

#[test]
fn unchecked_keys_may_be_blank() {
    assert_eq!(load_inputs_text("in.json", r#"{" ": "x"}"#, false).unwrap(), vec![pair(" ", "x")]);
}

#[test]
fn json_kinds_are_named_as_in_messages() {
    assert_eq!(json_kind(JsonKind::Null), "null");
    assert_eq!(json_kind(JsonKind::Bool), "a boolean");
    assert_eq!(json_kind(JsonKind::Number), "a number");
    assert_eq!(json_kind(JsonKind::Str), "a string");
    assert_eq!(json_kind(JsonKind::Array), "an array");
    assert_eq!(json_kind(JsonKind::Object), "an object");
}

#[test]
fn a_command_line_pair_splits_at_the_first_equal_sign_and_trims() {
    assert_eq!(parse_sys_input_pair(" key = a=b ").unwrap(), pair("key", "a=b"));
    assert_eq!(parse_sys_input_pair("k=").unwrap(), pair("k", ""));
    assert_eq!(
        parse_sys_input_pair("novalue").unwrap_err(),
        "input must be a key and a value separated by an equal sign"
    );
    assert_eq!(parse_sys_input_pair(" =v").unwrap_err(), "the key was missing or empty");
}

#[test]
fn the_command_line_wins_over_the_inputs_file() {
    let file = vec![pair("k", "{\"a\": 1}"), pair("only_file", "f"), pair("k", "second")];
    let cli = vec![pair("cli", "c"), pair("k", "override"), pair("cli", "c2")];
    let merged = merge_inputs(&file, &cli);
    assert_eq!(merged, vec![pair("k", "override"), pair("only_file", "f"), pair("cli", "c2")]);
    assert_eq!(merge_inputs(&file, &vec![]), vec![pair("k", "second"), pair("only_file", "f")]);
}
