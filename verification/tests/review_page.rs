use robo_croissant::paging::{current_page, total_pages, PAGE_SIZE};
use robo_croissant::review::{
    build_review_page, confidence_label, display_value, group_fields, show_items, FieldEntry, IssueNote, KbLink,
};

fn link(path: &str, value: &str) -> KbLink {
    KbLink {
        kb_name: "kb".to_string(),
        path: path.to_string(),
        value: value.to_string(),
        url: "http://source".to_string(),
        confidence: 0.95f32.to_bits(),
        reviewed: false,
        auto_reviewed: true,
    }
}

fn note(path: &str, issue_type: &str, detail: &str) -> IssueNote {
    IssueNote { path: path.to_string(), issue_type: issue_type.to_string(), detail: detail.to_string() }
}

fn entry(path: &str) -> FieldEntry {
    FieldEntry {
        path: path.to_string(),
        value: String::new(),
        url: String::new(),
        confidence_display: String::new(),
        confidence_label: String::new(),
        pre_accepted: false,
        pre_auto_reviewed: false,
        issue_type: String::new(),
        issue_detail: String::new(),
        run_changed: false,
    }
}

#[test]
fn fields_come_in_natural_order_under_their_sections() {
    let links = vec![
        link("distribution[10].name", "c"),
        link("name", "a"),
        link("distribution[2].name", "b"),
        link("distribution[10].@id", "[1,\"x\"]"),
    ];
    let displays: Vec<String> = ["95%", "95%", "95%", "95%"].iter().map(|s| s.to_string()).collect();
    let notes = vec![note("name", "first", "one"), note("name", "second", "two")];
    let changed = vec!["distribution[2].name".to_string()];
    let page = build_review_page(&links, &displays, &notes, &changed, None);
    assert_eq!(page.current_page, 0);
    assert_eq!(page.page_field_count, 4);
    let names: Vec<&str> = page.groups.iter().map(|g| g.name.as_str()).collect();
    assert_eq!(names, vec!["Distribution[2]", "Distribution[10]", "Dataset"]);
    let paths: Vec<&str> = page.groups[1].fields.iter().map(|f| f.path.as_str()).collect();
    assert_eq!(paths, vec!["distribution[10].@id", "distribution[10].name"]);
    assert_eq!(page.groups[1].fields[0].value, "1, \"x\"");
    assert!(page.groups[0].fields[0].run_changed);
    assert!(!page.groups[1].fields[0].run_changed);
    let named = &page.groups[2].fields[0];
    assert_eq!(named.issue_type, "first");
    assert_eq!(named.issue_detail, "one");
    assert_eq!(named.confidence_label, "high");
    assert_eq!(named.confidence_display, "95%");
    assert!(named.pre_auto_reviewed);
    assert!(!named.pre_accepted);
    assert_eq!(page.groups[0].fields[0].issue_type, "");
}

#[test]
fn fields_are_shown_page_by_page() {
    let links: Vec<KbLink> = (0..1201).rev().map(|i| link(&format!("a[{}].b", i), "v")).collect();
    let displays: Vec<String> = links.iter().map(|_| "0%".to_string()).collect();
    let mut shown: Vec<String> = Vec::new();
    let pages = total_pages(links.len() as i64, PAGE_SIZE);
    assert_eq!(pages, 3);
    for p in 0..pages {
        let page = build_review_page(&links, &displays, &vec![], &vec![], Some(p));
        assert_eq!(page.page_field_count, if p < 2 { 500 } else { 201 });
        for g in page.groups {
            for f in g.fields {
                shown.push(f.path);
            }
        }
    }
    let expected: Vec<String> = (0..1201).map(|i| format!("a[{}].b", i)).collect();
    assert_eq!(shown, expected);
    assert_eq!(build_review_page(&links, &displays, &vec![], &vec![], Some(3)).page_field_count, 0);
    assert_eq!(build_review_page(&links, &displays, &vec![], &vec![], Some(-4)).current_page, 0);
}

#[test]
fn sections_keep_the_order_of_their_first_fields() {
    let groups = group_fields(vec![entry("b.x"), entry("name"), entry("b.y"), entry("a.z")]);
    let names: Vec<&str> = groups.iter().map(|g| g.name.as_str()).collect();
    assert_eq!(names, vec!["B", "Dataset", "A"]);
    assert_eq!(groups[0].fields.len(), 2);
    assert_eq!(group_fields(vec![]), vec![]);
}

#[test]
fn confidence_words() {
    let word = |c: f32| confidence_label(c.to_bits());
    assert_eq!(word(1.0), "high");
    assert_eq!(word(0.9), "high");
    assert_eq!(word(0.89), "medium");
    assert_eq!(word(0.7), "medium");
    assert_eq!(word(0.69), "low");
    assert_eq!(word(f32::MIN_POSITIVE), "low");
    assert_eq!(word(0.0), "unknown");
    assert_eq!(word(-0.0), "unknown");
    assert_eq!(word(-1.0), "unknown");
    assert_eq!(word(f32::NAN), "unknown");
    assert_eq!(word(f32::INFINITY), "high");
}

#[test]
fn shown_values() {
    assert_eq!(display_value("[1, \"a\", {\"b\": 2}]"), "1, \"a\", {\"b\":2}");
    assert_eq!(display_value("[]"), "");
    assert_eq!(display_value("plain text"), "plain text");
    assert_eq!(display_value("{\"a\": 1}"), "{\"a\": 1}");
    assert_eq!(display_value("12"), "12");
    assert_eq!(show_items("raw", &Some(vec!["a".to_string(), "b".to_string()])), "a, b");
    assert_eq!(show_items("raw", &None), "raw");
}

#[test]
fn page_numbers() {
    assert_eq!(current_page(None), 0);
    assert_eq!(current_page(Some(-3)), 0);
    assert_eq!(current_page(Some(3)), 3);
    assert_eq!(total_pages(0, 500), 0);
    assert_eq!(total_pages(1, 500), 1);
    assert_eq!(total_pages(500, 500), 1);
    assert_eq!(total_pages(501, 500), 2);
    assert_eq!(total_pages(-1000, 500), -1);
}
