use tag_flatten::datum::Datum;
use tag_flatten::error::FlattenError;
use tag_flatten::flatten::{flatten_record, flatten_tags};
use tag_flatten::merge::{MergedMapping, MergedValue};

fn text(s: &str) -> Datum {
    Datum::Text(s.to_string())
}

fn texts(items: &[&str]) -> Datum {
    Datum::Array(items.iter().map(|s| text(s)).collect())
}

fn object(fields: Vec<(&str, Datum)>) -> Datum {
    Datum::Object(fields.into_iter().map(|(name, value)| (name.to_string(), value)).collect())
}

fn mapping_of(tags: &[&str]) -> Datum {
    let list: Vec<Datum> = tags.iter().map(|s| text(s)).collect();
    flatten_tags(&list).to_value()
}

#[test]
fn single_tag() {
    assert_eq!(mapping_of(&["env:prod"]), object(vec![("env", text("prod"))]));
}

#[test]
fn duplicate_promotion() {
    assert_eq!(
        mapping_of(&["env:prod", "env:staging"]),
        object(vec![("env", texts(&["prod", "staging"]))])
    );
}

#[test]
fn triple_append() {
    assert_eq!(
        mapping_of(&["env:a", "env:b", "env:c"]),
        object(vec![("env", texts(&["a", "b", "c"]))])
    );
}

#[test]
fn malformed_skip() {
    assert_eq!(mapping_of(&["noseparator", "env:prod"]), object(vec![("env", text("prod"))]));
}

#[test]
fn empty_value_and_empty_key() {
    assert_eq!(
        mapping_of(&["env:", ":value"]),
        object(vec![("env", text("")), ("", text("value"))])
    );
}

#[test]
fn an_empty_list_gives_an_empty_mapping() {
    assert_eq!(mapping_of(&[]), object(vec![]));
    assert_eq!(flatten_tags(&Vec::new()).len(), 0);
}

#[test]
fn keys_keep_the_order_in_which_they_were_first_seen() {
    assert_eq!(
        mapping_of(&["b:1", "a:2", "b:3", "c:4", "a:5"]),
        object(vec![("b", texts(&["1", "3"])), ("a", texts(&["2", "5"])), ("c", text("4"))])
    );
}

#[test]
fn equal_values_are_not_merged() {
    assert_eq!(mapping_of(&["k:v", "k:v", "k:v"]), object(vec![("k", texts(&["v", "v", "v"]))]));
}

#[test]
fn colons_in_the_value_are_kept() {
    assert_eq!(mapping_of(&["time:12:30:00"]), object(vec![("time", text("12:30:00"))]));
}

#[test]
fn entries_that_are_no_text_are_passed_over() {
    let list = vec![Datum::Integer(7), text("env:prod"), Datum::Null, Datum::Array(vec![text("x:y")])];
    assert_eq!(flatten_tags(&list).to_value(), object(vec![("env", text("prod"))]));
}

#[test]
fn no_more_keys_than_tags_with_a_colon() {
    let list = vec![text("a:1"), text("plain"), text("b:2"), text("a:3")];
    assert_eq!(flatten_tags(&list).len(), 2);
}

#[test]
fn merging_one_pair_at_a_time() {
    let mut mapping = MergedMapping::new();
    assert_eq!(mapping.len(), 0);
    mapping.insert("env".to_string(), "a".to_string());
    assert_eq!(mapping.get("env"), Some(&MergedValue::Single("a".to_string())));
    mapping.insert("env".to_string(), "b".to_string());
    assert_eq!(
        mapping.get("env"),
        Some(&MergedValue::Many(vec!["a".to_string(), "b".to_string()]))
    );
    mapping.insert("env".to_string(), "c".to_string());
    assert_eq!(
        mapping.get("env"),
        Some(&MergedValue::Many(vec!["a".to_string(), "b".to_string(), "c".to_string()]))
    );
    mapping.insert("zone".to_string(), "x".to_string());
    assert_eq!(mapping.len(), 2);
    assert_eq!(mapping.keys(), vec!["env".to_string(), "zone".to_string()]);
    assert_eq!(mapping.get("other"), None);
}

#[test]
fn the_record_gets_the_mapping_under_tag() {
    let record = object(vec![("tags", texts(&["env:prod", "env:staging"]))]);
    assert_eq!(
        flatten_record(record),
        Ok(object(vec![
            ("tags", texts(&["env:prod", "env:staging"])),
            ("tag", object(vec![("env", texts(&["prod", "staging"]))])),
        ]))
    );
}

#[test]
fn other_fields_are_kept_and_an_old_tag_field_is_replaced() {
    let record = object(vec![
        ("host", text("a")),
        ("tag", Datum::Integer(1)),
        ("tags", texts(&["k:v"])),
        ("nested", object(vec![("tags", Datum::Boolean(true))])),
    ]);
    assert_eq!(
        flatten_record(record),
        Ok(object(vec![
            ("host", text("a")),
            ("tag", object(vec![("k", text("v"))])),
            ("tags", texts(&["k:v"])),
            ("nested", object(vec![("tags", Datum::Boolean(true))])),
        ]))
    );
}

#[test]
fn a_record_without_tags_is_refused() {
    assert_eq!(
        flatten_record(object(vec![("host", text("a"))])),
        Err(FlattenError::MissingOrWrongTypeField)
    );
}

#[test]
fn tags_that_are_no_array_are_refused() {
    assert_eq!(
        flatten_record(object(vec![("tags", text("env:prod"))])),
        Err(FlattenError::MissingOrWrongTypeField)
    );
    assert_eq!(
        flatten_record(object(vec![("tags", Datum::Null)])),
        Err(FlattenError::MissingOrWrongTypeField)
    );
}

#[test]
fn a_value_that_is_no_object_is_refused() {
    assert_eq!(flatten_record(texts(&["env:prod"])), Err(FlattenError::MissingOrWrongTypeField));
    assert_eq!(flatten_record(Datum::Null), Err(FlattenError::MissingOrWrongTypeField));
}

#[test]
fn the_same_input_gives_the_same_output_twice() {
    let first = flatten_record(object(vec![("tags", texts(&["a:1", "b:2", "a:3"]))]));
    let second = flatten_record(object(vec![("tags", texts(&["a:1", "b:2", "a:3"]))]));
    assert!(first.is_ok());
    assert_eq!(first, second);
}

#[test]
fn nothing_of_an_earlier_record_shows_in_a_later_one() {
    let first = flatten_record(object(vec![("tags", texts(&["only_a:1", "shared:2"]))]));
    assert!(first.is_ok());
    let second = flatten_record(object(vec![("tags", texts(&["shared:3", "only_b:4"]))]));
    assert_eq!(
        second,
        Ok(object(vec![
            ("tags", texts(&["shared:3", "only_b:4"])),
            ("tag", object(vec![("shared", text("3")), ("only_b", text("4"))])),
        ]))
    );
}

#[test]
fn each_failure_has_a_message() {
    let all = [
        FlattenError::MalformedInput,
        FlattenError::UnsupportedValue,
        FlattenError::MissingOrWrongTypeField,
        FlattenError::InvalidProgram,
        FlattenError::InterpretedPathEvaluationFailure,
    ];
    for error in all {
        assert!(!error.message().is_empty());
    }
}
