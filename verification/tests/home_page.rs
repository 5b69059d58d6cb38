use robo_croissant::home::{
    build_home_items, HomeItem, IssueCount, KbProgress, KbUrl, ReviewCount, RunKbs, WorkingKb,
};

fn working(name: &str, url: Option<&str>) -> WorkingKb {
    WorkingKb { name: name.to_string(), url: url.map(|u| u.to_string()) }
}

fn run(label: &str, date: Option<&str>, names: &[&str]) -> RunKbs {
    RunKbs {
        label: label.to_string(),
        run_date: date.map(|d| d.to_string()),
        kb_names: names.iter().map(|n| n.to_string()).collect(),
    }
}

fn some(s: &str) -> Option<String> {
    Some(s.to_string())
}

#[test]
fn home_lists_every_knowledge_base() {
    let items = build_home_items(
        &vec![working("beta", None), working("Alpha", Some("http://own")), working("delta", None)],
        &vec![run("new", Some("2026-06-17"), &["beta", "gamma"]), run("old", None, &["beta", "Alpha"])],
        &vec!["Alpha".to_string(), "beta".to_string(), "gamma".to_string()],
        &vec![
            KbUrl { kb_name: "Alpha".to_string(), url: "http://run".to_string() },
            KbUrl { kb_name: "beta".to_string(), url: "http://beta".to_string() },
        ],
        &vec![
            ReviewCount { kb_name: "beta".to_string(), total: 3, reviewed: 2, auto_reviewed: 0 },
            ReviewCount { kb_name: "Alpha".to_string(), total: 4, reviewed: 4, auto_reviewed: 1 },
        ],
        &vec![IssueCount { kb_name: "beta".to_string(), total_issues: 5, error_count: 1 }],
        &vec![],
        &vec!["Alpha".to_string()],
    );
    assert_eq!(
        items,
        vec![
            HomeItem {
                name: "Alpha".to_string(),
                url: some("http://own"),
                latest_run_label: some("old"),
                latest_run_date: None,
                progress: Some(KbProgress {
                    total_fields: 4,
                    reviewed_fields: 4,
                    pct_reviewed: 100,
                    total_issues: 0,
                    error_count: 0,
                    has_been_validated: true,
                    has_staged_version: true,
                }),
            },
            HomeItem {
                name: "beta".to_string(),
                url: some("http://beta"),
                latest_run_label: some("new"),
                latest_run_date: some("2026-06-17"),
                progress: Some(KbProgress {
                    total_fields: 3,
                    reviewed_fields: 2,
                    pct_reviewed: 66,
                    total_issues: 5,
                    error_count: 1,
                    has_been_validated: true,
                    has_staged_version: false,
                }),
            },
            HomeItem {
                name: "delta".to_string(),
                url: None,
                latest_run_label: None,
                latest_run_date: None,
                progress: Some(KbProgress {
                    total_fields: 0,
                    reviewed_fields: 0,
                    pct_reviewed: 0,
                    total_issues: 0,
                    error_count: 0,
                    has_been_validated: false,
                    has_staged_version: false,
                }),
            },
            HomeItem {
                name: "gamma".to_string(),
                url: None,
                latest_run_label: some("new"),
                latest_run_date: some("2026-06-17"),
                progress: None,
            },
        ]
    );
}

#[test]
fn without_runs_only_working_knowledge_bases_are_listed() {
    let items = build_home_items(
        &vec![working("a", None)],
        &vec![],
        &vec!["b".to_string()],
        &vec![KbUrl { kb_name: "a".to_string(), url: "http://run".to_string() }],
        &vec![],
        &vec![],
        &vec![],
        &vec![],
    );
    assert_eq!(items.len(), 1);
    assert_eq!(items[0].url, None);
}

#[test]
fn home_is_sorted_without_regard_to_case() {
    let items = build_home_items(
        &vec![working("b", None), working("É", None), working("C", None), working("é", None), working("a", None)],
        &vec![],
        &vec![],
        &vec![],
        &vec![],
        &vec![],
        &vec![],
        &vec![],
    );
    let names: Vec<&str> = items.iter().map(|i| i.name.as_str()).collect();
    assert_eq!(names, vec!["a", "b", "C", "É", "é"]);
}

#[test]
fn a_clean_run_of_the_validator_counts() {
    let items = build_home_items(
        &vec![working("clean", None), working("never", None)],
        &vec![],
        &vec![],
        &vec![],
        &vec![
            ReviewCount { kb_name: "clean".to_string(), total: 2, reviewed: 0, auto_reviewed: 0 },
            ReviewCount { kb_name: "never".to_string(), total: 2, reviewed: 1, auto_reviewed: 0 },
        ],
        &vec![],
        &vec!["clean".to_string(), "elsewhere".to_string()],
        &vec![],
    );
    let validated: Vec<bool> = items.iter().map(|i| i.progress.unwrap().has_been_validated).collect();
    assert_eq!(validated, vec![true, false]);
    assert_eq!(items[0].progress.unwrap().total_issues, 0);
}
