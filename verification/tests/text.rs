use robo_croissant::lookup::position_of;
use robo_croissant::text::{
    begins_with, cut_after_last, cut_before_first, finishes_with, holds_part, join_with, same, split_at_each, trim,
    without_ending, Edge,
};

fn strings(list: &[&str]) -> Vec<String> {
    list.iter().map(|s| s.to_string()).collect()
}

#[test]
fn cutting() {
    assert_eq!(cut_before_first("a;b;c", ';'), "a");
    assert_eq!(cut_before_first("abc", ';'), "abc");
    assert_eq!(cut_before_first(";x", ';'), "");
    assert_eq!(cut_after_last("a/b/c", '/'), "c");
    assert_eq!(cut_after_last("abc", '/'), "abc");
    assert_eq!(cut_after_last("abc/", '/'), "");
}

#[test]
fn beginnings_endings_and_parts() {
    assert!(begins_with("http://x", "http"));
    assert!(!begins_with("htt", "http"));
    assert!(begins_with("x", ""));
    assert!(finishes_with("a.csv", ".csv"));
    assert!(!finishes_with("csv", ".csv"));
    assert!(holds_part("text/tab-separated-values", "tab"));
    assert!(!holds_part("text/csv", "tab"));
    assert!(holds_part("", ""));
    assert!(same("é", "é"));
    assert!(!same("e", "é"));
    assert_eq!(without_ending("a.zip", ".zip"), Some("a".to_string()));
    assert_eq!(without_ending("a.zip", ".gz"), None);
}

#[test]
fn splitting_and_joining() {
    assert_eq!(split_at_each("a,b,,c", ','), strings(&["a", "b", "", "c"]));
    assert_eq!(split_at_each("", ','), strings(&[""]));
    assert_eq!(split_at_each(",", ','), strings(&["", ""]));
    assert_eq!(join_with(&strings(&["a", "b", "c"]), ", "), "a, b, c");
    assert_eq!(join_with(&strings(&[]), ", "), "");
}

#[test]
fn trimming() {
    assert_eq!(trim(" \t\u{a0}a b\u{3000}\n", Edge::Space), "a b");
    assert_eq!(trim("   ", Edge::Space), "");
    assert_eq!(trim("\"\"a\"b\"", Edge::Quote), "a\"b");
    assert_eq!(trim("\"", Edge::Quote), "");
}

#[test]
fn positions_in_lists() {
    let list = strings(&["a", "b", "a"]);
    assert_eq!(position_of(&list, "a"), 0);
    assert_eq!(position_of(&list, "b"), 1);
    assert_eq!(position_of(&list, "c"), 3);
}
