use robo_croissant::document::parse_document;
use robo_croissant::schema::{build_schema_groups, count_record_sets, RecordSetGroup};

fn strings(list: &[&str]) -> Vec<String> {
    list.iter().map(|s| s.to_string()).collect()
}

#[test]
fn record_sets_with_the_same_fields_share_a_group() {
    let j = parse_document(
        r#"{"recordSet":[
            {"@id":"a","field":[{"name":"x"},{"name":"y"}]},
            {"name":"b","field":[{"name":"Column_1"}]},
            {"@id":"c","field":[{"name":"x"},{"name":"y"},{"no":"name"}]},
            {"@id":7,"name":"ignored"},
            {"field":[{"name":"1"},{"name":"2"},{"name":"3"},{"name":"4"},{"name":"5"}]}
        ]}"#,
    )
    .unwrap();
    let groups = build_schema_groups(&j);
    assert_eq!(
        groups,
        vec![
            RecordSetGroup {
                schema_summary: "x, y".to_string(),
                field_count: 2,
                members: strings(&["a", "c"]),
                is_duplicate: true,
                has_placeholders: false,
            },
            RecordSetGroup {
                schema_summary: "Column_1".to_string(),
                field_count: 1,
                members: strings(&["b"]),
                is_duplicate: false,
                has_placeholders: true,
            },
            RecordSetGroup {
                schema_summary: "(no fields defined)".to_string(),
                field_count: 0,
                members: strings(&["(unnamed)"]),
                is_duplicate: false,
                has_placeholders: false,
            },
            RecordSetGroup {
                schema_summary: "1, 2, 3, 4, …".to_string(),
                field_count: 5,
                members: strings(&["(unnamed)"]),
                is_duplicate: false,
                has_placeholders: false,
            },
        ]
    );
    assert_eq!(count_record_sets(&j), 5);
    let total: usize = groups.iter().map(|g| g.members.len()).sum();
    assert_eq!(total, 5);
}

#[test]
fn documents_without_record_sets() {
    for text in ["{}", "[]", "null", r#"{"recordSet":{}}"#, r#"{"recordSet":[]}"#] {
        let j = parse_document(text).unwrap();
        assert_eq!(build_schema_groups(&j), vec![]);
        assert_eq!(count_record_sets(&j), 0);
    }
}

#[test]
fn placeholder_names() {
    let has = |name: &str| {
        let j = parse_document(&format!(r#"{{"recordSet":[{{"field":[{{"name":"{}"}}]}}]}}"#, name)).unwrap();
        build_schema_groups(&j)[0].has_placeholders
    };
    assert!(has("column_1"));
    assert!(has("COLUMN_23"));
    assert!(has("column_٣"));
    assert!(!has("column_"));
    assert!(!has("column_1x"));
    assert!(!has("my column_1"));
    assert!(!has("columns_1"));
}
