use robo_croissant::apply::{apply_fix, fix_is_possible, FixOutcome};
use robo_croissant::document::{parse_document, to_value};
use robo_croissant::fixes::{
    generate_fix_suggestions, infer_inner_filename, inner_ext_to_mime, issues_readable, slug_id, IssueRow,
};
use robo_croissant::issues::issue_type_meta;
use robo_croissant::json::Json;
use serde_json::Value;

fn doc(text: &str) -> Json {
    parse_document(text).unwrap()
}

fn value(text: &str) -> Value {
    serde_json::from_str(text).unwrap()
}

fn issue(id: i64, issue_type: &str, path: &str, v: &str) -> IssueRow {
    IssueRow {
        id,
        issue_type: issue_type.to_string(),
        path: path.to_string(),
        value: v.to_string(),
        detail: String::new(),
    }
}

fn applied(metadata: &Json, body: &Json) -> (Value, String, String) {
    assert!(fix_is_possible(metadata, body));
    match apply_fix(metadata, body) {
        FixOutcome::Applied(a) => (to_value(&a.metadata), a.issue_type, a.path),
        FixOutcome::Refused(e) => panic!("{}", e),
    }
}

fn refused(metadata: &Json, body: &Json) -> String {
    assert!(fix_is_possible(metadata, body));
    match apply_fix(metadata, body) {
        FixOutcome::Applied(_) => panic!("applied"),
        FixOutcome::Refused(e) => e,
    }
}

#[test]
fn names_of_files_in_archives() {
    assert_eq!(infer_inner_filename("http://x/BindingDB_All_202606_tsv.zip"), "BindingDB_All_202606.tsv");
    assert_eq!(infer_inner_filename("http://x/a_csv.tar.gz"), "a.csv");
    assert_eq!(infer_inner_filename("http://x/a_json.tgz"), "a.json");
    assert_eq!(infer_inner_filename("http://x/a_jsonl.gz"), "a.jsonl");
    assert_eq!(infer_inner_filename("http://x/a_ndjson.gz"), "a.ndjson");
    assert_eq!(infer_inner_filename("http://x/a.csv.gz"), "a.csv");
    assert_eq!(infer_inner_filename("http://x/a.jsonl.zip"), "a.jsonl");
    assert_eq!(infer_inner_filename("http://x/a.zip"), "a.tsv");
    assert_eq!(infer_inner_filename("a"), "a.tsv");
    assert_eq!(infer_inner_filename("http://x/"), ".tsv");
    assert_eq!(infer_inner_filename("http://x/a.ndjson.gz"), "a.ndjson.tsv");
}

#[test]
fn media_types() {
    assert_eq!(inner_ext_to_mime("a.tsv"), "text/tab-separated-values");
    assert_eq!(inner_ext_to_mime("a.csv"), "text/csv");
    assert_eq!(inner_ext_to_mime("a.json"), "application/json");
    assert_eq!(inner_ext_to_mime("a.jsonl"), "application/jsonlines");
    assert_eq!(inner_ext_to_mime("a.ndjson"), "application/jsonlines");
    assert_eq!(inner_ext_to_mime("a.xml"), "application/octet-stream");
}

#[test]
fn slugs() {
    assert_eq!(slug_id("BindingDB-All.tsv zip_1"), "BindingDB_All_tsv_zip_1");
    assert_eq!(slug_id("é٣/"), "é٣_");
    assert_eq!(slug_id(""), "");
}

#[test]
fn proposal_for_an_archive() {
    let j = doc(r#"{"distribution":[{"@id":"x"},{"@id":"data.zip"}]}"#);
    let s = generate_fix_suggestions(
        &j,
        &vec![issue(4, "zip_without_inner_file", "distribution[1].contentUrl", "http://x/all_tsv.zip")],
    );
    assert_eq!(s.len(), 1);
    assert_eq!(
        to_value(&s[0]),
        value(
            r#"{
                "id": "zip_inner:data.zip",
                "issue_id": 4,
                "issue_type": "zip_without_inner_file",
                "severity": "warning",
                "title": "Add inner FileObject for data.zip",
                "description": "Defines a cr:FileObject for the file inside this archive so that recordSet fields can declare their source.",
                "fix_type": "add_inner_file",
                "params": {
                    "dist_index": 1,
                    "zip_id": "data.zip",
                    "inner_id": "file_data_zip_inner",
                    "inner_filename": "all.tsv",
                    "encoding_format": "text/tab-separated-values"
                },
                "editable_fields": [
                    { "key": "inner_filename", "label": "Inner filename", "hint": "Filename inside the archive" },
                    { "key": "inner_id", "label": "FileObject @id", "hint": "Unique identifier — must be referenced in field sources" },
                    { "key": "encoding_format", "label": "MIME type", "hint": "e.g. text/tab-separated-values" }
                ],
                "preview": {
                    "@id": "file_data_zip_inner",
                    "@type": "cr:FileObject",
                    "name": "all.tsv",
                    "contentUrl": "all.tsv",
                    "encodingFormat": "text/tab-separated-values",
                    "containedIn": { "@id": "data.zip" }
                }
            }"#
        )
    );
}

#[test]
fn proposals_come_archives_first() {
    let j = doc(
        r#"{"recordSet":[{"@id":"rs","field":[{"name":"a"},{"name":"b","source":null},"odd"],"data":[1]}]}"#,
    );
    let issues = vec![
        issue(1, "inline_data_rows", "recordSet[0].data", "1 row"),
        issue(2, "missing_field_source", "recordSet[0]", ""),
        issue(3, "zip_without_inner_file", "distribution[7].contentUrl", "http://x/a.zip"),
        issue(4, "missing_field_source", "recordSet[5]", ""),
        issue(5, "missing_field_source", "recordSet", ""),
        issue(-6, "inline_data_rows", "no index", "?"),
        issue(7, "url_unreachable", "][", ""),
    ];
    assert!(issues_readable(&issues));
    let s: Vec<Value> = generate_fix_suggestions(&j, &issues).iter().map(to_value).collect();
    assert_eq!(s.len(), 4);
    assert_eq!(s[0]["id"], "zip_inner:?");
    assert_eq!(s[1]["title"], "Add source to 2 fields in 'rs'");
    assert_eq!(s[1]["id"], "missing_source:rs:0");
    assert_eq!(s[1]["issue_id"], 2);
    assert_eq!(
        s[1]["description"],
        "Fields need source.fileObject.@id and source.extract.column so consumers know which file and column each field comes from. The column name is taken from each field's name. Apply 'Add inner FileObject' fixes first, then paste the resulting @id here."
    );
    assert_eq!(s[1]["params"], value(r#"{"rs_index":0,"inner_file_id":""}"#));
    assert_eq!(
        s[1]["preview"],
        value(r#"{"source":{"fileObject":{"@id":"(enter inner file @id above)"},"extract":{"column":"(taken from field.name per field)"}}}"#)
    );
    assert_eq!(s[2]["title"], "Add source to 0 fields in '?'");
    assert_eq!(
        s[3],
        value(
            r#"{
                "id": "inline_data_rows:all",
                "issue_type": "inline_data_rows",
                "severity": "warning",
                "title": "Rename `data` → `examples` in 2 recordSet(s)",
                "description": "These recordSets use `data` for sample rows, but the dataset has external files. In Croissant 1.1, `data` means the recordSet is fully self-contained — illustrative rows belong in `examples`.",
                "fix_type": "rename_data_to_examples",
                "params": { "rs_indices": [0] },
                "editable_fields": [],
                "preview": [
                    { "path": "recordSet[0].data", "value": "1 row" },
                    { "path": "no index", "value": "?" }
                ]
            }"#
        )
    );
}

#[test]
fn proposals_without_archives_have_no_note() {
    let s = generate_fix_suggestions(&doc("{}"), &vec![issue(1, "missing_field_source", "recordSet[0]", "")]);
    let description = to_value(&s[0])["description"].as_str().unwrap().to_string();
    assert!(description.ends_with("taken from each field's name."));
    assert!(generate_fix_suggestions(&doc("{}"), &vec![]).is_empty());
}

#[test]
fn unreadable_paths() {
    assert!(!issues_readable(&vec![issue(1, "inline_data_rows", "]a[0", "")]));
    assert!(!issues_readable(&vec![issue(1, "zip_without_inner_file", "]a[0", "")]));
    assert!(!issues_readable(&vec![issue(1, "missing_field_source", "]a[0", "")]));
    assert!(issues_readable(&vec![issue(1, "other", "]a[0", "")]));
}

#[test]
fn an_approved_archive_fix_adds_its_preview() {
    let j = doc(r#"{"distribution":[{"@id":"data.zip"}]}"#);
    let s = generate_fix_suggestions(
        &j,
        &vec![issue(4, "zip_without_inner_file", "distribution[0].contentUrl", "http://x/all_tsv.zip")],
    );
    let (after, issue_type, path) = applied(&j, &s[0]);
    assert_eq!(after["distribution"].as_array().unwrap().len(), 2);
    assert_eq!(after["distribution"][0], value(r#"{"@id":"data.zip"}"#));
    assert_eq!(after["distribution"][1], to_value(&s[0])["preview"]);
    assert_eq!(issue_type, "zip_without_inner_file");
    assert_eq!(path, "distribution[0].contentUrl");
}

#[test]
fn an_archive_fix_needs_names() {
    let j = doc(r#"{"distribution":[]}"#);
    let message = "inner_id and inner_filename are required";
    assert_eq!(refused(&j, &doc(r#"{"fix_type":"add_inner_file"}"#)), message);
    assert_eq!(refused(&j, &doc(r#"{"fix_type":"add_inner_file","params":{"inner_id":"a"}}"#)), message);
    assert_eq!(refused(&j, &doc(r#"{"fix_type":"add_inner_file","params":{"inner_filename":"a"}}"#)), message);
    let body = doc(r#"{"fix_type":"add_inner_file","params":{"inner_id":"a","inner_filename":"b"}}"#);
    let (after, _, path) = applied(&j, &body);
    assert_eq!(
        after,
        value(r#"{"distribution":[{"@id":"a","@type":"cr:FileObject","name":"b","contentUrl":"b","encodingFormat":"","containedIn":{"@id":""}}]}"#)
    );
    assert_eq!(path, "");
    let (after, _, _) = applied(&doc("{}"), &body);
    assert_eq!(after, value(r#"{"distribution":null}"#));
    let (after, _, _) = applied(&doc("null"), &body);
    assert_eq!(after, value(r#"{"distribution":null}"#));
}

#[test]
fn an_approved_rename_moves_the_rows() {
    let j = doc(r#"{"recordSet":[{"data":[1],"x":1},{"data":[2]},{"data":[3],"examples":[4]},"odd",{"y":1}]}"#);
    let body = doc(r#"{"fix_type":"rename_data_to_examples","params":{"rs_indices":[0,0,2,3,4,9,"1",-1]}}"#);
    let (after, issue_type, path) = applied(&j, &body);
    assert_eq!(
        after,
        value(r#"{"recordSet":[{"examples":[1],"x":1},{"data":[2]},{"examples":[3]},"odd",{"y":1}]}"#)
    );
    assert_eq!(issue_type, "inline_data_rows");
    assert_eq!(path, "");
    let (after, _, _) = applied(&doc(r#"{"a":1}"#), &body);
    assert_eq!(after, value(r#"{"a":1,"recordSet":null}"#));
}

#[test]
fn the_proposed_rename_covers_its_issues() {
    let j = doc(r#"{"recordSet":[{"data":[1]},{"data":[2]},{"data":[3]}]}"#);
    let issues = vec![
        issue(1, "inline_data_rows", "recordSet[0].data", ""),
        issue(2, "inline_data_rows", "recordSet[2].data", ""),
    ];
    let s = generate_fix_suggestions(&j, &issues);
    let (after, _, _) = applied(&j, &s[0]);
    assert_eq!(after, value(r#"{"recordSet":[{"examples":[1]},{"data":[2]},{"examples":[3]}]}"#));
}

#[test]
fn an_approved_source_fix_gives_every_field_a_source() {
    let j = doc(
        r#"{"recordSet":[{"field":[{"name":"a"},{"name":"b","source":"kept"},null,{"source":null}]},{"field":{}}]}"#,
    );
    let body = doc(r#"{"fix_type":"add_field_sources","params":{"rs_index":0,"inner_file_id":"f"}}"#);
    let (after, issue_type, path) = applied(&j, &body);
    assert_eq!(
        after,
        value(
            r#"{"recordSet":[{"field":[
                {"name":"a","source":{"fileObject":{"@id":"f"},"extract":{"column":"a"}}},
                {"name":"b","source":"kept"},
                {"source":{"fileObject":{"@id":"f"},"extract":{"column":""}}},
                {"source":null}
            ]},{"field":{}}]}"#
        )
    );
    assert_eq!(issue_type, "missing_field_source");
    assert_eq!(path, "recordSet[0]");
    let far = doc(r#"{"fix_type":"add_field_sources","params":{"rs_index":7,"inner_file_id":"f"}}"#);
    let (after, _, path) = applied(&j, &far);
    assert_eq!(after, to_value(&j));
    assert_eq!(path, "recordSet[7]");
    let first = doc(r#"{"fix_type":"add_field_sources","params":{"inner_file_id":"f"}}"#);
    let (after, _, _) = applied(&doc(r#"{"recordSet":[{}]}"#), &first);
    assert_eq!(after, value(r#"{"recordSet":[{"field":null}]}"#));
}

#[test]
fn a_source_fix_needs_a_file() {
    let j = doc(r#"{"recordSet":[{"field":[{}]}]}"#);
    let message = "inner_file_id is required — enter the @id of the cr:FileObject inside the archive";
    let s = generate_fix_suggestions(&j, &vec![issue(1, "missing_field_source", "recordSet[0]", "")]);
    assert_eq!(refused(&j, &s[0]), message);
    assert_eq!(refused(&j, &doc(r#"{"fix_type":"add_field_sources"}"#)), message);
}

#[test]
fn unknown_fixes_are_refused() {
    assert_eq!(refused(&doc("{}"), &doc(r#"{"fix_type":"other"}"#)), "Unknown fix_type: other");
    assert_eq!(refused(&doc("[]"), &doc("[]")), "Unknown fix_type: ");
}

#[test]
fn impossible_fixes() {
    let rename = doc(r#"{"fix_type":"rename_data_to_examples"}"#);
    assert!(!fix_is_possible(&doc("[]"), &rename));
    assert!(fix_is_possible(&doc("null"), &rename));
    let inner = doc(r#"{"fix_type":"add_inner_file","params":{"inner_id":"a","inner_filename":"b"}}"#);
    assert!(!fix_is_possible(&doc("\"x\""), &inner));
    let source = doc(r#"{"fix_type":"add_field_sources","params":{"inner_file_id":"f"}}"#);
    assert!(!fix_is_possible(&doc("1"), &source));
    assert!(!fix_is_possible(&doc(r#"{"recordSet":["x"]}"#), &source));
    assert!(!fix_is_possible(&doc(r#"{"recordSet":[{"field":["x"]}]}"#), &source));
    assert!(fix_is_possible(&doc(r#"{"recordSet":[{"field":"x"}]}"#), &source));
}

#[test]
fn proposals_have_the_severity_of_their_issues() {
    let issues = vec![
        issue(1, "zip_without_inner_file", "distribution[0]", ""),
        issue(2, "missing_field_source", "recordSet[0]", ""),
        issue(3, "inline_data_rows", "recordSet[0]", ""),
    ];
    for s in generate_fix_suggestions(&doc("{}"), &issues) {
        let issue_type = s.text_or("issue_type", "");
        assert_eq!(s.text_or("severity", ""), issue_type_meta(&issue_type).1);
    }
}
