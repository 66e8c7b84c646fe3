use typst_cnd::meta::{dict_to_metadata, items_to_meta, state_to_metadata, value_to_meta, StateValue};
use typst_cnd::model::MetaValue;

fn s(text: &str) -> StateValue {
    StateValue::Str(text.to_string())
}

fn keys(entries: &[(String, MetaValue)]) -> Vec<&str> {
    entries.iter().map(|(k, _)| k.as_str()).collect()
}

fn as_str(m: &MetaValue) -> Option<&str> {
    match m {
        MetaValue::Str(t) => Some(t.as_str()),
        _ => None,
    }
}

#[test]
fn state_metadata_keys_serialize_in_a_stable_alphabetical_order() {
    let value = vec![
        ("zone".to_string(), s("z")),
        ("wolf".to_string(), s("w")),
        ("mango".to_string(), s("m")),
        ("kite".to_string(), s("k")),
        ("juno".to_string(), s("j")),
        ("delta".to_string(), s("d")),
        ("banana".to_string(), s("b")),
        ("apple".to_string(), s("a")),
    ];

    let metadata = dict_to_metadata(&value);

    assert_eq!(keys(&metadata), vec!["apple", "banana", "delta", "juno", "kite", "mango", "wolf", "zone"]);
    assert_eq!(as_str(&metadata[0].1), Some("a"));
    assert_eq!(as_str(&metadata[7].1), Some("z"));
}

#[test]
fn none_entries_are_dropped_and_a_later_key_wins() {
    let value = vec![
        ("b".to_string(), s("first")),
        ("gone".to_string(), StateValue::Absent),
        ("a".to_string(), StateValue::Int(7)),
        ("b".to_string(), s("second")),
    ];
    let metadata = dict_to_metadata(&value);
    assert_eq!(keys(&metadata), vec!["a", "b"]);
    assert!(matches!(metadata[0].1, MetaValue::Int(7)));
    assert_eq!(as_str(&metadata[1].1), Some("second"));
}

#[test]
fn keys_order_by_code_point() {
    let value = vec![("é".to_string(), s("1")), ("Z".to_string(), s("2")), ("a".to_string(), s("3"))];
    assert_eq!(keys(&dict_to_metadata(&value)), vec!["Z", "a", "é"]);
}

#[test]
fn values_convert_to_their_json_form() {
    assert!(value_to_meta(&StateValue::Absent).is_none());
    assert!(matches!(value_to_meta(&StateValue::Bool(true)), Some(MetaValue::Bool(true))));
    assert!(matches!(value_to_meta(&StateValue::Float(None)), Some(MetaValue::Null)));
    match value_to_meta(&StateValue::Float(Some("1.5".to_string()))) {
        Some(MetaValue::Number(t)) => assert_eq!(t, "1.5"),
        _ => panic!("a float is a number"),
    }
    assert_eq!(as_str(&value_to_meta(&StateValue::Decimal("0.10".to_string())).unwrap()), Some("0.10"));
    assert_eq!(as_str(&value_to_meta(&StateValue::Other("red".to_string())).unwrap()), Some("red"));
    let items = items_to_meta(&vec![StateValue::Int(1), StateValue::Absent, s("x")]);
    assert_eq!(items.len(), 2);
    assert!(matches!(items[0], MetaValue::Int(1)));
    assert_eq!(as_str(&items[1]), Some("x"));
}

#[test]
fn the_state_at_a_node_is_a_dictionary_or_nothing() {
    let dict = StateValue::Dict(vec![("k".to_string(), s("v"))]);
    let metadata = state_to_metadata(&dict);
    assert_eq!(keys(&metadata), vec!["k"]);
    assert!(state_to_metadata(&s("not a dict")).is_empty());
    assert!(state_to_metadata(&StateValue::Absent).is_empty());
}
