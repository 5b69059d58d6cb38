use robo_croissant::compare::{
    compare_page, compare_rows, find_page, seek_target, CompareRow, CompareValue, RunValue,
};

fn strings(list: &[&str]) -> Vec<String> {
    list.iter().map(|s| s.to_string()).collect()
}

fn value(run_id: i32, path: &str, value: &str) -> RunValue {
    RunValue { run_id, path: path.to_string(), value: value.to_string() }
}

fn cell(v: Option<&str>) -> CompareValue {
    CompareValue { present: v.is_some(), value: v.unwrap_or("").to_string() }
}

#[test]
fn rows_show_the_values_of_all_runs() {
    let rows = compare_rows(
        &vec![3, 1, 2],
        &strings(&["a[0].b", "c", "nothing"]),
        &vec![
            value(1, "a[0].b", "x"),
            value(2, "a[0].b", "y"),
            value(1, "c", "z"),
            value(1, "c", "w"),
            value(2, "c", "w"),
            value(9, "c", "other"),
            value(1, "elsewhere", "v"),
        ],
    );
    assert_eq!(
        rows,
        vec![
            CompareRow {
                path: "a[0].b".to_string(),
                anchor: "a-0--b".to_string(),
                values: vec![cell(None), cell(Some("x")), cell(Some("y"))],
                all_same: false,
            },
            CompareRow {
                path: "c".to_string(),
                anchor: "c".to_string(),
                values: vec![cell(None), cell(Some("w")), cell(Some("w"))],
                all_same: true,
            },
            CompareRow {
                path: "nothing".to_string(),
                anchor: "nothing".to_string(),
                values: vec![cell(None), cell(None), cell(None)],
                all_same: true,
            },
        ]
    );
}

#[test]
fn absence_is_no_change() {
    let values = vec![value(1, "p", "x"), value(3, "p", "x")];
    let rows = compare_rows(&vec![1, 2, 3], &strings(&["p"]), &values);
    assert!(rows[0].all_same);
    let values = vec![value(1, "p", "x"), value(3, "p", "y")];
    let rows = compare_rows(&vec![1, 2, 3], &strings(&["p"]), &values);
    assert!(!rows[0].all_same);
}

#[test]
fn changed_paths_come_page_by_page() {
    let paths: Vec<String> = (0..401).map(|i| format!("p{:03}", i)).collect();
    let page = compare_page(&paths, Some(2));
    assert_eq!(page.current_page, 2);
    assert_eq!(page.total_changed, 401);
    assert_eq!(page.total_pages, 3);
    assert_eq!(page.paths, strings(&["p400"]));
    assert_eq!(compare_page(&paths, None).paths.len(), 200);
    assert_eq!(compare_page(&paths, Some(7)).paths.len(), 0);
    assert_eq!(compare_page(&vec![], None).total_pages, 0);
}

#[test]
fn seeking_opens_the_page_that_shows_the_path() {
    let mut paths: Vec<String> = (0..450).map(|i| format!("recordSet[{}].name", i)).collect();
    paths.sort();
    for p in &paths {
        let page = find_page(&paths, p);
        assert!(compare_page(&paths, Some(page as i64)).paths.contains(p));
    }
    assert_eq!(find_page(&paths, "elsewhere"), 0);
}

#[test]
fn seek_targets() {
    let paths: Vec<String> = (0..300).map(|i| format!("p[{}].x", i)).collect();
    assert_eq!(
        seek_target("BRCA Exchange/é_1", &paths, "p[250].x"),
        "/compare/BRCA%20Exchange%2F%C3%A9%5F1?page=1#field-p-250--x"
    );
    assert_eq!(seek_target("kb", &paths, "unknown path"), "/compare/kb?page=0#field-unknown-path");
}
