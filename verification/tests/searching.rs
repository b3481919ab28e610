use tag_flatten::corpus::{decimal_text, generate_tags, make_tag};
use tag_flatten::search::{find_text, search_repeatedly, total_bytes};

fn tags(count: usize) -> Vec<String> {
    (0..count).map(|i| format!("tag{}", i)).collect()
}

#[test]
fn finds_the_first_position() {
    let list = vec!["a".to_string(), "target".to_string(), "b".to_string(), "target".to_string()];
    assert_eq!(find_text(&list, "target"), Some(1));
    assert_eq!(find_text(&list, "a"), Some(0));
    assert_eq!(find_text(&list, "b"), Some(2));
}

#[test]
fn finds_nothing_where_the_target_is_absent() {
    assert_eq!(find_text(&tags(100), "target"), None);
    assert_eq!(find_text(&[], "target"), None);
    assert_eq!(find_text(&tags(3), "tag"), None);
}

#[test]
fn counts_the_bytes_of_all_tags() {
    assert_eq!(total_bytes(&tags(10)), 40);
    assert_eq!(total_bytes(&tags(100)), 10 * 4 + 90 * 5);
    assert_eq!(total_bytes(&[]), 0);
    assert_eq!(total_bytes(&["é".to_string(), "键".to_string()]), 5);
}

#[test]
fn adds_up_the_positions_found() {
    let mut list = tags(10);
    list[7] = "target".to_string();
    assert_eq!(search_repeatedly(500, &list, "target"), 3500);
    assert_eq!(search_repeatedly(0, &list, "target"), 0);
    assert_eq!(search_repeatedly(5000, &tags(50), "target"), 0);
}

#[test]
fn decimal_digits() {
    assert_eq!(decimal_text(0), "0");
    assert_eq!(decimal_text(7), "7");
    assert_eq!(decimal_text(10), "10");
    assert_eq!(decimal_text(1234567890), "1234567890");
    assert_eq!(decimal_text(usize::MAX), usize::MAX.to_string());
}

#[test]
fn numbered_tags() {
    assert_eq!(make_tag(0), "env-0:ec2");
    assert_eq!(make_tag(49), "env-49:ec2");
}

#[test]
fn generated_lists() {
    assert_eq!(generate_tags(1, 0), vec!["env-0:ec2".to_string()]);
    assert_eq!(
        generate_tags(5, 2),
        vec!["env-0:ec2", "env-1:ec2", "env-2:ec2", "env-0:ec2", "env-1:ec2"]
    );
    assert_eq!(generate_tags(3, 3), vec!["env-0:ec2", "env-1:ec2", "env-2:ec2"]);
    assert_eq!(generate_tags(0, 0), Vec::<String>::new());
    assert_eq!(generate_tags(50, 10).len(), 50);
}
