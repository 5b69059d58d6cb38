use robo_croissant::issues::{
    error_issue_types, group_by_kb, issue_type_meta, label_issues, summarize_types, ValidationIssue,
};

fn issue(kb_name: &str, issue_type: &str, path: &str) -> ValidationIssue {
    ValidationIssue {
        kb_name: kb_name.to_string(),
        issue_type: issue_type.to_string(),
        path: path.to_string(),
        value: "v".to_string(),
        detail: "d".to_string(),
    }
}

const TYPES: [(&str, &str, &str); 19] = [
    ("repeated_content_url", "Repeated contentUrl", "error"),
    ("duplicate_distribution_id", "Duplicate distribution @id", "warning"),
    ("broken_source_reference", "Broken source reference", "error"),
    ("missing_required_field", "Missing required field", "error"),
    ("missing_field_source", "Field missing source", "error"),
    ("relative_content_url", "Relative contentUrl", "warning"),
    ("wrong_distribution_type", "Wrong distribution @type", "warning"),
    ("format_extension_mismatch", "Format/extension mismatch", "warning"),
    ("placeholder_value", "Placeholder value", "warning"),
    ("url_error_response", "URL error response", "info"),
    ("placeholder_field_name", "Placeholder field name", "warning"),
    ("inline_data_rows", "Inline data rows (use examples)", "warning"),
    ("zip_without_inner_file", "Archive missing inner file", "warning"),
    ("tabular_file_missing_recordset", "Tabular file missing RecordSet", "warning"),
    ("provenance_noncompliant", "Non-compliant dct:provenance", "warning"),
    ("license_is_terms_page", "License URL is a terms page", "warning"),
    ("invalid_checksum_format", "Invalid checksum format", "warning"),
    ("url_unreachable", "URL unreachable", "info"),
    ("anything else", "Unknown issue", "info"),
];

#[test]
fn labels_and_severities() {
    for (t, label, severity) in TYPES {
        assert_eq!(issue_type_meta(t), (label, severity));
    }
}

#[test]
fn error_types_are_those_with_that_severity() {
    let errors = error_issue_types();
    for (t, _, severity) in TYPES {
        assert_eq!(errors.contains(&t.to_string()), severity == "error");
    }
    assert_eq!(errors.len(), 4);
}

#[test]
fn summaries_count_each_type() {
    let issues = vec![
        issue("a", "url_unreachable", "1"),
        issue("a", "missing_field_source", "2"),
        issue("b", "url_unreachable", "3"),
    ];
    let s = summarize_types(&issues);
    assert_eq!(s.len(), 2);
    assert_eq!((s[0].issue_type.as_str(), s[0].count), ("missing_field_source", 1));
    assert_eq!((s[1].issue_type.as_str(), s[1].count), ("url_unreachable", 2));
    assert_eq!((s[0].label.as_str(), s[0].severity.as_str()), ("Field missing source", "error"));
    assert_eq!(s.iter().map(|t| t.count).sum::<usize>(), issues.len());
    assert!(summarize_types(&vec![]).is_empty());
}

#[test]
fn issues_are_grouped_by_knowledge_base() {
    let issues = vec![
        issue("a", "url_unreachable", "1"),
        issue("a", "placeholder_value", "2"),
        issue("b", "other", "3"),
    ];
    let g = group_by_kb(&issues);
    assert_eq!(g.len(), 2);
    assert_eq!((g[0].kb_name.as_str(), g[0].count), ("a", 2));
    assert_eq!((g[1].kb_name.as_str(), g[1].count), ("b", 1));
    assert_eq!(g[0].issues[1].path, "2");
    assert_eq!(g[0].issues[1].severity, "warning");
    assert_eq!(g[1].issues[0].issue_label, "Unknown issue");
    let lines: Vec<_> = g.into_iter().flat_map(|x| x.issues).collect();
    assert_eq!(lines, label_issues(&issues));
    assert!(group_by_kb(&vec![]).is_empty());
}

#[test]
fn knowledge_bases_that_are_apart_have_groups_of_their_own() {
    let g = group_by_kb(&vec![issue("a", "x", "1"), issue("b", "x", "2"), issue("a", "x", "3")]);
    assert_eq!(g.len(), 3);
}
