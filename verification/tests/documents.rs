use robo_croissant::document::{
    from_value, parse_document, parse_list, parse_strings, set_at_path, set_is_safe, to_compact_text,
    to_pretty_text, to_value,
};
use robo_croissant::json::{find_member, insert_member, integer, natural, remove_member, Json};
use serde_json::Value;

fn doc(text: &str) -> Json {
    parse_document(text).unwrap()
}

fn value(text: &str) -> Value {
    serde_json::from_str(text).unwrap()
}

#[test]
fn documents_survive_conversion() {
    let text = r#"{"b":[1,-2,2.5,1e30,null,true,{"x":"é\n"}],"a":"","c":{}}"#;
    assert_eq!(to_value(&doc(text)), value(text));
    assert_eq!(to_value(&from_value(value(text))), value(text));
    assert_eq!(to_value(&doc(text).clone()), value(text));
}

#[test]
fn written_text() {
    let j = doc(r#"{"b":[1,"x"],"a":null}"#);
    assert_eq!(to_compact_text(&j), r#"{"a":null,"b":[1,"x"]}"#);
    assert_eq!(to_pretty_text(&j), "{\n  \"a\": null,\n  \"b\": [\n    1,\n    \"x\"\n  ]\n}");
}

#[test]
fn complaints_about_text() {
    assert!(parse_document("{").is_err());
    assert!(parse_document("[1] x").is_err());
    assert!(parse_document("").err().unwrap().contains("EOF"));
    assert!(parse_list("{}").is_err());
    assert_eq!(parse_list("[1, {}]").unwrap().len(), 2);
    assert_eq!(parse_strings(r#"["a","b"]"#), Some(vec!["a".to_string(), "b".to_string()]));
    assert_eq!(parse_strings(r#"["a",1]"#), None);
    assert_eq!(parse_strings("nonsense"), None);
}

#[test]
fn members_and_items() {
    let j = doc(r#"{"t":"x","n":7,"neg":-7,"big":18446744073709551615,"f":7.0,"l":[1,2],"e":null}"#);
    assert_eq!(j.text_at("t"), Some("x"));
    assert_eq!(j.text_at("n"), None);
    assert_eq!(j.text_or("missing", "?"), "?");
    assert_eq!(j.items_at("l").unwrap().len(), 2);
    assert!(j.items_at("t").is_none());
    assert!(j.get("e").is_some());
    assert!(j.get("missing").is_none());
    assert_eq!(j.get("n").unwrap().as_u64(), Some(7));
    assert_eq!(j.get("neg").unwrap().as_u64(), None);
    assert_eq!(j.get("big").unwrap().as_u64(), Some(u64::MAX));
    assert_eq!(j.get("f").unwrap().as_u64(), None);
    assert_eq!(j.get("t").unwrap().as_u64(), None);
    assert!(doc("[1]").get("t").is_none());
}

#[test]
fn later_members_count() {
    let members = vec![("a".to_string(), natural(1)), ("b".to_string(), natural(2)), ("a".to_string(), natural(3))];
    assert_eq!(find_member(&members, "a").unwrap().as_u64(), Some(3));
    assert_eq!(to_value(&Json::Object(members)), value(r#"{"a":3,"b":2}"#));
}

#[test]
fn members_are_removed_and_replaced() {
    let mut members = vec![("a".to_string(), natural(1)), ("a".to_string(), natural(2))];
    assert_eq!(remove_member(&mut members, "a").unwrap().as_u64(), Some(2));
    assert!(find_member(&members, "a").is_none());
    assert!(remove_member(&mut members, "a").is_none());
    insert_member(&mut members, "a".to_string(), natural(4));
    insert_member(&mut members, "a".to_string(), natural(5));
    assert_eq!(to_value(&Json::Object(members)), value(r#"{"a":5}"#));
}

#[test]
fn numbers_are_written_and_read_back() {
    assert_eq!(to_compact_text(&integer(-12)), "-12");
    assert_eq!(to_compact_text(&integer(i64::MIN)), "-9223372036854775808");
    assert_eq!(to_compact_text(&natural(u64::MAX)), "18446744073709551615");
    assert_eq!(natural(42).as_u64(), Some(42));
    assert_eq!(integer(42).as_u64(), Some(42));
    assert_eq!(integer(-42).as_u64(), None);
}

#[test]
fn equality_of_documents() {
    let a = doc(r#"{"x":[1,{"y":2.5}],"z":null}"#);
    assert!(a.same_as(&a));
    assert!(a.same_as(&doc(r#"{"z":null,"x":[1,{"y":2.5}]}"#)));
    assert!(!a.same_as(&doc(r#"{"x":[1,{"y":2.5}]}"#)));
    assert!(!a.same_as(&doc(r#"{"x":[1,{"y":2.6}],"z":null}"#)));
    assert!(!doc("1").same_as(&doc("1.0")));
    assert!(doc("0.0").same_as(&doc("-0.0")));
    assert_eq!(to_compact_text(&doc("0.0")), "0.0");
    assert_eq!(to_compact_text(&doc("-0.0")), "-0.0");
    assert_eq!(to_compact_text(&doc("1.0")), "1.0");
    assert_eq!(to_compact_text(&doc("1e3")), "1000.0");
    assert!(!doc("0").same_as(&doc("0.0")));
    assert!(!doc("[]").same_as(&doc("{}")));
    assert!(!doc("[1,2]").same_as(&doc("[1]")));
}

#[test]
fn setting_a_member() {
    let j = doc(r#"{"name":"a","x":{"y":1}}"#);
    let named = set_at_path(&j, "name", "b").unwrap();
    assert_eq!(to_value(&named), value(r#"{"name":"b","x":{"y":1}}"#));
    let new = set_at_path(&j, "license", "MIT").unwrap();
    assert_eq!(to_value(&new), value(r#"{"license":"MIT","name":"a","x":{"y":1}}"#));
    let nested = set_at_path(&j, "x.y", "2").unwrap();
    assert_eq!(to_value(&nested), value(r#"{"name":"a","x":{"y":"2"}}"#));
    let made = set_at_path(&j, "p.q", "2").unwrap();
    assert_eq!(to_value(&made), value(r#"{"name":"a","p":{"q":"2"},"x":{"y":1}}"#));
}

#[test]
fn setting_with_brackets_and_bad_paths() {
    let j = doc(r#"{"d":[{"name":"a"}]}"#);
    let set = set_at_path(&j, "d.0.name", "b").unwrap();
    assert_eq!(to_value(&set), value(r#"{"d":[{"name":"b"}]}"#));
    let literal = set_at_path(&j, "d[0].name", "b").unwrap();
    assert_eq!(to_value(&literal), value(r#"{"d":[{"name":"a"}],"d[0]":{"name":"b"}}"#));
    assert!(set_at_path(&j, ".x", "b").is_err());
    assert!(set_at_path(&doc(r#"{"t":"x"}"#), "t.y", "b").is_err());
}

#[test]
fn paths_past_the_largest_index() {
    let j = doc(r#"{"a":[{"b":[]},[]],"o":{">18446744073709551615":"x"}}"#);
    assert!(set_is_safe(&j, "distribution[0].name"));
    assert!(set_is_safe(&j, ""));
    assert!(set_is_safe(&j, "a.>3"));
    assert!(!set_is_safe(&j, "a.>18446744073709551615"));
    assert!(!set_is_safe(&j, "a.\\>18446744073709551615.b"));
    assert!(!set_is_safe(&j, "a.>+018446744073709551615"));
    assert!(!set_is_safe(&j, "\\a.0.b.>18446744073709551615"));
    assert!(!set_is_safe(&j, "a.>.>18446744073709551615"));
    assert!(!set_is_safe(&j, "a.<.b.>18446744073709551615"));
    assert!(set_is_safe(&j, "a.+.>18446744073709551615"));
    assert!(set_is_safe(&j, "a.2.>18446744073709551615"));
    assert!(set_is_safe(&j, "a.>18446744073709551616"));
    assert!(set_is_safe(&j, "a>18446744073709551615"));
    assert!(set_is_safe(&j, "o.>18446744073709551615"));
    assert!(set_is_safe(&j, "new.>18446744073709551615"));
    assert!(set_is_safe(&j, "new.+.>18446744073709551615.>18446744073709551615"));
}

#[test]
fn setting_at_names_that_look_like_places() {
    let largest = ">18446744073709551615";
    let j = doc(r#"{"a":[1],"o":{}}"#);
    let member = set_at_path(&j, &format!("o.{}", largest), "x").unwrap();
    assert_eq!(to_value(&member), value(r#"{"a":[1],"o":{">18446744073709551615":"x"}}"#));
    let made = set_at_path(&j, &format!("n.{}", largest), "x").unwrap();
    assert_eq!(to_value(&made), value(r#"{"a":[1],"n":{">18446744073709551615":"x"},"o":{}}"#));
    let appended = set_at_path(&j, &format!("a.+.{}", largest), "x").unwrap();
    assert_eq!(to_value(&appended), value(r#"{"a":[1,{">18446744073709551615":"x"}],"o":{}}"#));
    assert!(set_at_path(&j, "a.>18446744073709551614", "x").is_err());
}

#[test]
fn what_is_set_is_read_back() {
    let j = doc(r#"{"a":{"b":{"c":"old","d":1}},"n":null}"#);
    let set = set_at_path(&j, "a.b.c", "new").unwrap();
    assert_eq!(to_value(&set), value(r#"{"a":{"b":{"c":"new","d":1}},"n":null}"#));
    let made = set_at_path(&j, "n.x.y", "new").unwrap();
    assert_eq!(to_value(&made), value(r#"{"a":{"b":{"c":"old","d":1}},"n":{"x":{"y":"new"}}}"#));
    let list = set_at_path(&j, "n.+", "new").unwrap();
    assert_eq!(to_value(&list), value(r#"{"a":{"b":{"c":"old","d":1}},"n":["new"]}"#));
    let root = set_at_path(&doc("null"), "x", "new").unwrap();
    assert_eq!(to_value(&root), value(r#"{"x":"new"}"#));
}
