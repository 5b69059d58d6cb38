use robo_croissant::number::{parse_number, to_decimal};
use robo_croissant::paths::{
    dotted_path, get_group, has_brackets_in_order, natural_sort_key, parse_bracket_index, path_to_anchor,
};
use robo_croissant::patterns::pad_index;

#[test]
fn test_get_group() {
    // Single part path
    assert_eq!(get_group("name"), "Dataset");
    assert_eq!(get_group("description"), "Dataset");

    assert_eq!(get_group("distribution[0].name"), "Distribution[0]");
    assert_eq!(get_group("recordSet[0].field[0].name"), "RecordSet[0] - Field[0]");

    // Multi part path with non-numeric second part
    assert_eq!(get_group("distribution.name"), "Distribution");
    assert_eq!(get_group("recordSet.name"), "RecordSet");

    // Edge cases
    assert_eq!(get_group(""), "Dataset"); // splits into [""] -> (Some(""), None)
    assert_eq!(get_group("a.b.c.d"), "A"); // splits into ["a", "b", "c.d"] -> (Some("a"), Some("b")) -> capitalized "A"
}

#[test]
fn group_of_odd_paths() {
    assert_eq!(get_group("distribution[0]"), "Dataset");
    assert_eq!(get_group("creator.affiliation[2].name"), "Creator - Affiliation[2]");
    assert_eq!(get_group(".name"), "");
    assert_eq!(get_group("a."), "A");
    assert_eq!(get_group("a.b[]"), "A");
    assert_eq!(get_group("a.b[x1]"), "A");
    assert_eq!(get_group("éa.b"), "Éa");
    assert_eq!(get_group("ßa.b"), "SSa");
}

#[test]
fn natural_key_pads_indices() {
    assert_eq!(natural_sort_key("distribution[10]"), "distribution[00000010]");
    assert_eq!(natural_sort_key("recordSet[1].field[23].name"), "recordSet[00000001].field[00000023].name");
    assert_eq!(natural_sort_key("name"), "name");
    assert_eq!(natural_sort_key("a[]b[x]c[1"), "a[]b[x]c[1");
    assert_eq!(natural_sort_key("a[[1]]"), "a[[00000001]]");
    assert_eq!(natural_sort_key("a[123456789]"), "a[:123456789]");
    assert_eq!(natural_sort_key("a[007].b"), natural_sort_key("a[7].b"));
    assert_eq!(natural_sort_key("a[000100000000]"), natural_sort_key("a[100000000]"));
    assert_eq!(natural_sort_key("a[99999999999999999999]"), "a[::::::::::::99999999999999999999]");
    // A digit outside ASCII is found but denotes no number.
    assert_eq!(natural_sort_key("a[٣]"), "a[00000000]");
}

#[test]
fn natural_keys_sort_numerically() {
    let keys = |a: &str, b: &str| natural_sort_key(a) < natural_sort_key(b);
    assert!(keys("distribution[2].name", "distribution[10].name"));
    assert!(keys("recordSet[0].field[9]", "recordSet[0].field[10]"));
    assert!(keys("recordSet[9].field[10]", "recordSet[10].field[1]"));
    assert!(!("distribution[2].name" < "distribution[10].name"));
    assert!(keys("distribution[99999999]", "distribution[100000000]"));
    assert!(keys("distribution[999999999]", "distribution[1000000000]"));
    assert!(keys("distribution[100000000].z", "distribution[100000001].a"));
    assert!(keys("distribution[18446744073709551615]", "distribution[18446744073709551616]"));
    assert!(keys("distribution[0]", "distribution[18446744073709551616]"));
}

#[test]
fn key_of_parts() {
    let whole = natural_sort_key("a[1].b[22].c");
    let parts = format!("{}{}{}", natural_sort_key("a[1].b"), pad_index("22"), natural_sort_key(".c"));
    assert_eq!(whole, parts);
}

#[test]
fn padded_index() {
    assert_eq!(pad_index("7"), "[00000007]");
    assert_eq!(pad_index("007"), "[00000007]");
    assert_eq!(pad_index("99999999"), "[99999999]");
    assert_eq!(pad_index("100000000"), "[:100000000]");
    assert_eq!(pad_index("000000000000"), "[00000000]");
    assert_eq!(pad_index("18446744073709551616"), "[::::::::::::18446744073709551616]");
    assert_eq!(pad_index(""), "[00000000]");
}

#[test]
fn anchors() {
    assert_eq!(path_to_anchor("recordSet[0].field[1].name"), "recordSet-0--field-1--name");
    assert_eq!(path_to_anchor("a-b_c9"), "a-b_c9");
    assert_eq!(path_to_anchor("é@id"), "--id");
    assert_eq!(path_to_anchor(""), "");
}

#[test]
fn bracket_indices() {
    assert_eq!(parse_bracket_index("distribution[12].contentUrl"), Some(12));
    assert_eq!(parse_bracket_index("recordSet[3].field[4]"), Some(3));
    assert_eq!(parse_bracket_index("recordSet[+3]"), Some(3));
    assert_eq!(parse_bracket_index("recordSet"), None);
    assert_eq!(parse_bracket_index("recordSet[]"), None);
    assert_eq!(parse_bracket_index("recordSet[x]"), None);
    assert_eq!(parse_bracket_index("recordSet[-1]"), None);
    assert_eq!(parse_bracket_index("recordSet[1"), None);
    assert_eq!(parse_bracket_index("recordSet[99999999999999999999999]"), None);
}

#[test]
fn bracket_order() {
    assert!(has_brackets_in_order("a[1]"));
    assert!(has_brackets_in_order("a"));
    assert!(has_brackets_in_order("]"));
    assert!(has_brackets_in_order("["));
    assert!(!has_brackets_in_order("]["));
    assert!(!has_brackets_in_order("a]b[0]"));
}

#[test]
fn decimal_notation() {
    assert_eq!(to_decimal(0), "0");
    assert_eq!(to_decimal(10), "10");
    assert_eq!(to_decimal(u64::MAX), "18446744073709551615");
    assert_eq!(parse_number("0042", 100), Some(42));
    assert_eq!(parse_number("+42", 100), Some(42));
    assert_eq!(parse_number("101", 100), None);
    assert_eq!(parse_number("++1", 100), None);
    assert_eq!(parse_number("", 100), None);
    assert_eq!(parse_number("1 ", 100), None);
}

#[test]
fn paths_with_dots_only() {
    assert_eq!(dotted_path("distribution[0].encodingFormat"), "distribution.0.encodingFormat");
    assert_eq!(dotted_path("recordSet[1].field[23].name"), "recordSet.1.field.23.name");
    assert_eq!(dotted_path("grid[0][1]"), "grid.0.1");
    assert_eq!(dotted_path("[2].name"), "2.name");
    assert_eq!(dotted_path("a.[2]"), "a.2");
    assert_eq!(dotted_path("name"), "name");
    assert_eq!(dotted_path(""), "");
    assert_eq!(dotted_path("a[]b[x]c[1"), "a[]b[x]c[1");
    assert_eq!(dotted_path("a[0]b[1]"), "a[0]b.1");
    assert_eq!(dotted_path("a\\[0].b[1]"), "a\\[0].b.1");
    assert_eq!(dotted_path("a[٣]"), "a[٣]");
    assert_eq!(dotted_path("a\\"), "a\\");
}
