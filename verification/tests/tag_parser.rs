use tag_flatten::tag::split_tag;

fn split(tag: &str) -> Option<(String, String)> {
    split_tag(tag).map(|parts| (parts.key, parts.value))
}

#[test]
fn splits_at_the_colon() {
    assert_eq!(split("env:prod"), Some(("env".to_string(), "prod".to_string())));
}

#[test]
fn splits_at_the_first_colon_only() {
    assert_eq!(split("url:http://host:80"), Some(("url".to_string(), "http://host:80".to_string())));
}

#[test]
fn a_tag_without_a_colon_has_no_parts() {
    assert_eq!(split("noseparator"), None);
    assert_eq!(split(""), None);
}

#[test]
fn an_empty_value_is_kept() {
    assert_eq!(split("env:"), Some(("env".to_string(), String::new())));
}

#[test]
fn an_empty_key_is_kept() {
    assert_eq!(split(":value"), Some((String::new(), "value".to_string())));
}

#[test]
fn a_lone_colon_gives_two_empty_parts() {
    assert_eq!(split(":"), Some((String::new(), String::new())));
}

#[test]
fn nothing_is_trimmed() {
    assert_eq!(split(" env : prod "), Some((" env ".to_string(), " prod ".to_string())));
}

#[test]
fn characters_outside_ascii_are_counted_as_characters() {
    assert_eq!(split("région:île-de-france"), Some(("région".to_string(), "île-de-france".to_string())));
    assert_eq!(split("键:值:更多"), Some(("键".to_string(), "值:更多".to_string())));
}
