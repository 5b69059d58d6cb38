use robo_croissant::document::{parse_document, to_value};
use robo_croissant::json::Json;
use robo_croissant::reconcile::{build_reconcile_page, json_display, json_raw, reconcile, ReconcileRow};
use serde_json::Value;

fn doc(text: &str) -> Json {
    parse_document(text).unwrap()
}

fn value(text: &str) -> Value {
    serde_json::from_str(text).unwrap()
}

#[test]
fn members_as_text() {
    assert_eq!(json_display(None), "");
    assert_eq!(json_display(Some(&doc("null"))), "");
    assert_eq!(json_display(Some(&doc("\"a b\""))), "a b");
    assert_eq!(json_display(Some(&doc("[1]"))), "[\n  1\n]");
    assert_eq!(json_raw(None), "null");
    assert_eq!(json_raw(Some(&doc("null"))), "null");
    assert_eq!(json_raw(Some(&doc("{ \"a\" : [ 1 ] }"))), "{\"a\":[1]}");
}

#[test]
fn rows_for_what_differs() {
    let current = doc(r#"{"@context":1,"name":"a","same":{"x":1},"gone":1,"distribution":[1],"recordSet":[]}"#);
    let staged = doc(r#"{"@context":2,"name":"b","same":{"x":1},"dct:provenance":null,"distribution":[1,2],"recordSet":[3]}"#);
    let page = build_reconcile_page(&current, &staged);
    assert_eq!(
        page.rows,
        vec![
            ReconcileRow {
                key: "dct:provenance".to_string(),
                current_present: false,
                current_display: "".to_string(),
                current_json: "null".to_string(),
                staged_present: true,
                staged_display: "".to_string(),
                staged_json: "null".to_string(),
                default_choice: "staged".to_string(),
                is_provenance: true,
            },
            ReconcileRow {
                key: "gone".to_string(),
                current_present: true,
                current_display: "1".to_string(),
                current_json: "1".to_string(),
                staged_present: false,
                staged_display: "".to_string(),
                staged_json: "null".to_string(),
                default_choice: "current".to_string(),
                is_provenance: false,
            },
            ReconcileRow {
                key: "name".to_string(),
                current_present: true,
                current_display: "a".to_string(),
                current_json: "\"a\"".to_string(),
                staged_present: true,
                staged_display: "b".to_string(),
                staged_json: "\"b\"".to_string(),
                default_choice: "current".to_string(),
                is_provenance: false,
            },
        ]
    );
    assert_eq!(page.current_dist_count, 1);
    assert_eq!(page.staged_dist_count, 2);
    assert_eq!(page.current_rs_count, 0);
    assert_eq!(page.staged_rs_count, 1);
    assert!(page.dist_recordset_differs);
    assert_eq!(page.dist_recordset_default, "current");
}

#[test]
fn equal_versions_leave_nothing_to_do() {
    let j = doc(r#"{"name":"a","distribution":[{"x":1.5}],"recordSet":{}}"#);
    let page = build_reconcile_page(&j, &j);
    assert!(page.rows.is_empty());
    assert!(!page.dist_recordset_differs);
    assert_eq!(page.dist_recordset_default, "current");
}

#[test]
fn staged_data_is_the_default_where_there_is_none() {
    let page = build_reconcile_page(&doc("{}"), &doc(r#"{"recordSet":[1]}"#));
    assert_eq!(page.dist_recordset_default, "staged");
    let page = build_reconcile_page(&doc("[]"), &doc("{}"));
    assert_eq!(page.dist_recordset_default, "current");
    assert!(!page.dist_recordset_differs);
}

#[test]
fn choices_make_the_document() {
    let current = doc(r#"{"a":1,"b":2,"c":3,"d":4,"e":5,"distribution":[1],"recordSet":[1]}"#);
    let staged = doc(r#"{"a":10,"c":30,"distribution":[2]}"#);
    let body = doc(
        r#"{"field_resolutions":{
            "a":{"source":"staged"},
            "b":{"source":"staged"},
            "c":{"source":"current"},
            "d":{"source":"edit","value":{"x":[]}},
            "e":{"source":"restructure","value":{"e1":1,"e2":2}},
            "f":{"source":"edit"},
            "g":{"source":"unknown"},
            "h":{}
        }}"#,
    );
    let r = reconcile(&current, &staged, &body).unwrap();
    assert_eq!(
        to_value(&r),
        value(r#"{"a":10,"c":3,"d":{"x":[]},"e1":1,"e2":2,"f":null,"distribution":[1],"recordSet":[1]}"#)
    );
    let r = reconcile(&current, &staged, &doc(r#"{"dist_recordset_choice":"staged"}"#)).unwrap();
    assert_eq!(to_value(&r), value(r#"{"a":1,"b":2,"c":3,"d":4,"e":5,"distribution":[2]}"#));
}

#[test]
fn choices_are_carried_out_in_the_order_of_the_keys() {
    let current = doc(r#"{"a":1,"b":2}"#);
    let staged = doc(r#"{"b":20}"#);
    let body = doc(
        r#"{"field_resolutions":{"b":{"source":"staged"},"a":{"source":"restructure","value":{"b":5,"a":6}}}}"#,
    );
    let r = reconcile(&current, &staged, &body).unwrap();
    assert_eq!(to_value(&r), value(r#"{"a":6,"b":20}"#));
    let body = doc(r#"{"field_resolutions":{"a":{"source":"restructure","value":"no object"}}}"#);
    assert_eq!(to_value(&reconcile(&current, &staged, &body).unwrap()), value(r#"{"b":2}"#));
}

#[test]
fn without_choices_the_current_version_stays() {
    let current = doc(r#"{"a":[1,{"b":null}]}"#);
    for body in ["{}", "null", "[]", r#"{"field_resolutions":[]}"#, r#"{"dist_recordset_choice":"current"}"#] {
        let r = reconcile(&current, &doc(r#"{"a":2}"#), &doc(body)).unwrap();
        assert_eq!(to_value(&r), to_value(&current));
    }
}

#[test]
fn choices_for_different_members_are_independent() {
    let current = doc(r#"{"a":1,"b":2,"c":3}"#);
    let staged = doc(r#"{"a":10,"b":20}"#);
    let both = doc(r#"{"field_resolutions":{"a":{"source":"staged"},"c":{"source":"staged"}}}"#);
    let r = reconcile(&current, &staged, &both).unwrap();
    assert_eq!(to_value(&r), value(r#"{"a":10,"b":2}"#));
}

#[test]
fn only_objects_can_be_reconciled() {
    let e = reconcile(&doc("[]"), &doc("{}"), &doc("{}")).err().unwrap();
    assert_eq!(e, "current metadata is not a JSON object");
    let r = reconcile(&doc(r#"{"a":1}"#), &doc("[]"), &doc(r#"{"field_resolutions":{"a":{"source":"staged"}}}"#));
    assert_eq!(to_value(&r.unwrap()), value("{}"));
}

#[test]
fn the_proposed_choices_lose_nothing() {
    let current = doc(r#"{"a":1,"b":2,"distribution":[1]}"#);
    let staged = doc(r#"{"b":20,"c":30,"distribution":[2]}"#);
    let page = build_reconcile_page(&current, &staged);
    let choices: Vec<String> =
        page.rows.iter().map(|r| format!(r#""{}":{{"source":"{}"}}"#, r.key, r.default_choice)).collect();
    let body = doc(&format!(r#"{{"field_resolutions":{{{}}}}}"#, choices.join(",")));
    let r = reconcile(&current, &staged, &body).unwrap();
    assert_eq!(to_value(&r), value(r#"{"a":1,"b":2,"c":30,"distribution":[1]}"#));
}
