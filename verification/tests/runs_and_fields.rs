use robo_croissant::document::{parse_document, to_value};
use robo_croissant::export::{
    commit_message, final_file_name, free_snapshot_name, resync_note, snapshot_file_name, ResyncOutcome,
    FINAL_CROISSANTS_DIR,
};
use robo_croissant::fields::{
    accept_link, accepted_paths, change_document, change_link, correction_of, edit_is_safe, parse_updates, Correction,
    FieldUpdate, LinkChange,
};
use robo_croissant::review::KbLink;
use robo_croissant::runs::{
    build_run_lines, hash_is_cuttable, read_run_edit, shorten_hash, Run, RunEdit, RunLine, RunStats,
};

fn run(id: i32, hash: &str) -> Run {
    Run {
        id,
        label: "label".to_string(),
        run_date: Some("2026-06-01".to_string()),
        model: None,
        file_hash: hash.to_string(),
        imported_at: "now".to_string(),
    }
}

fn update(path: &str, url: &str, value: &str) -> FieldUpdate {
    FieldUpdate { path: path.to_string(), url: url.to_string(), value: value.to_string() }
}

#[test]
fn runs_with_what_they_cover() {
    let stats = vec![
        RunStats { run_id: 1, kb_count: 9, field_count: 9 },
        RunStats { run_id: 1, kb_count: 2, field_count: 30 },
        RunStats { run_id: 5, kb_count: 7, field_count: 8 },
    ];
    let lines = build_run_lines(&vec![run(1, "0123456789abcdef"), run(2, "ffffffffffff")], &stats);
    assert_eq!(
        lines,
        vec![
            RunLine {
                id: 1,
                label: "label".to_string(),
                run_date: Some("2026-06-01".to_string()),
                model: None,
                file_hash: "0123456789ab".to_string(),
                imported_at: "now".to_string(),
                kb_count: 2,
                field_count: 30,
            },
            RunLine {
                id: 2,
                label: "label".to_string(),
                run_date: Some("2026-06-01".to_string()),
                model: None,
                file_hash: "ffffffffffff".to_string(),
                imported_at: "now".to_string(),
                kb_count: 0,
                field_count: 0,
            },
        ]
    );
}

#[test]
fn hashes_are_cut_by_bytes() {
    assert_eq!(shorten_hash("éééééé!"), "éééééé");
    assert_eq!(shorten_hash("\u{1f600}\u{1f600}\u{1f600}x"), "\u{1f600}\u{1f600}\u{1f600}");
    assert!(hash_is_cuttable("0123456789ab"));
    assert!(!hash_is_cuttable("0123456789a"));
    assert!(!hash_is_cuttable("0123456789aé"));
    assert!(!hash_is_cuttable(""));
    assert!(hash_is_cuttable("€€€€"));
}

#[test]
fn edits_of_runs() {
    assert_eq!(
        read_run_edit("  GPT 5 \n", "\tgpt "),
        RunEdit { label: "GPT 5".to_string(), model: Some("gpt".to_string()) }
    );
    assert_eq!(read_run_edit("", "  "), RunEdit { label: "".to_string(), model: None });
}

#[test]
fn submitted_edits() {
    let r = parse_updates(r#"[{"path":"name","value":"x","url":"u"},{"path":1},"odd"]"#).unwrap();
    assert_eq!(r, vec![update("name", "u", "x"), update("", "", ""), update("", "", "")]);
    assert_eq!(parse_updates("[]").unwrap(), vec![]);
    assert!(parse_updates("{}").is_err());
    assert!(!parse_updates("[").err().unwrap().is_empty());
}

#[test]
fn accepted() {
    assert_eq!(accepted_paths(Some(r#"["a","b"]"#)), vec!["a".to_string(), "b".to_string()]);
    assert_eq!(accepted_paths(Some("nonsense")), Vec::<String>::new());
    assert_eq!(accepted_paths(None), Vec::<String>::new());
}

#[test]
fn an_edit_replaces_or_inserts_a_field() {
    let old = KbLink {
        kb_name: "kb".to_string(),
        path: "name".to_string(),
        value: "old".to_string(),
        url: "before".to_string(),
        confidence: 7,
        reviewed: false,
        auto_reviewed: true,
    };
    let new = change_link(Some(old), "other", &update("ignored", "u", "x"));
    assert_eq!(
        new,
        LinkChange::Replace(KbLink {
            kb_name: "kb".to_string(),
            path: "name".to_string(),
            value: "x".to_string(),
            url: "u".to_string(),
            confidence: 7,
            reviewed: true,
            auto_reviewed: true,
        })
    );
    assert_eq!(
        change_link(None, "kb", &update("name", "u", "x")),
        LinkChange::Insert(KbLink {
            kb_name: "kb".to_string(),
            path: "name".to_string(),
            value: "x".to_string(),
            url: "u".to_string(),
            confidence: 0.0f32.to_bits(),
            reviewed: true,
            auto_reviewed: false,
        })
    );
}

#[test]
fn an_edit_is_read_back() {
    let doc = parse_document(r#"{"name":"a","license":"b"}"#).unwrap();
    let after = change_document(&doc, &update("name", "", "x")).unwrap();
    assert_eq!(after.text_at("name"), Some("x"));
    assert_eq!(after.text_at("license"), Some("b"));
    assert!(change_document(&doc, &update("name.first", "", "x")).is_err());
    assert_eq!(to_value(&doc)["name"], "a");
}

fn edited(document: &str, path: &str) -> Option<serde_json::Value> {
    let doc = parse_document(document).unwrap();
    assert!(edit_is_safe(&doc, &update(path, "", "x")));
    change_document(&doc, &update(path, "", "x")).ok().map(|j| to_value(&j))
}

fn parsed(text: &str) -> Option<serde_json::Value> {
    Some(serde_json::from_str(text).unwrap())
}

#[test]
fn an_edit_reaches_the_item_of_a_list() {
    let doc = r#"{"distribution":[{"name":"a","encodingFormat":"csv"},{"name":"b"}],"keywords":["k","l"]}"#;
    assert_eq!(
        edited(doc, "distribution[0].encodingFormat"),
        parsed(r#"{"distribution":[{"name":"a","encodingFormat":"x"},{"name":"b"}],"keywords":["k","l"]}"#)
    );
    assert_eq!(
        edited(doc, "distribution[1].license"),
        parsed(
            r#"{"distribution":[{"name":"a","encodingFormat":"csv"},{"name":"b","license":"x"}],"keywords":["k","l"]}"#
        )
    );
    assert_eq!(
        edited(doc, "keywords[1]"),
        parsed(
            r#"{"distribution":[{"name":"a","encodingFormat":"csv"},{"name":"b"}],"keywords":["k","x"]}"#
        )
    );
    assert_eq!(
        edited(doc, "keywords[2]"),
        parsed(
            r#"{"distribution":[{"name":"a","encodingFormat":"csv"},{"name":"b"}],"keywords":["k","l","x"]}"#
        )
    );
    assert_eq!(edited(doc, "keywords[3]"), None);
    assert_eq!(edited(doc, "keywords[0].name"), None);
    assert_eq!(edited(doc, "keywords.name"), None);
}

#[test]
fn an_edit_goes_through_nested_lists() {
    let doc = r#"{"recordSet":[{"field":[{"name":"a"},{"source":{"extract":{"column":"c"}}}]}],"grid":[[1,2],[3]]}"#;
    assert_eq!(
        edited(doc, "recordSet[0].field[1].source.extract.column"),
        parsed(
            r#"{"recordSet":[{"field":[{"name":"a"},{"source":{"extract":{"column":"x"}}}]}],"grid":[[1,2],[3]]}"#
        )
    );
    assert_eq!(
        edited(doc, "grid[0][1]"),
        parsed(r#"{"recordSet":[{"field":[{"name":"a"},{"source":{"extract":{"column":"c"}}}]}],"grid":[[1,"x"],[3]]}"#)
    );
    assert_eq!(edited("{}", "creator[0].name"), parsed(r#"{"creator":[{"name":"x"}]}"#));
    assert_eq!(edited("{}", "a\\[0\\]"), parsed(r#"{"a[0]":"x"}"#));
}

#[test]
fn edits_past_the_largest_index() {
    let doc = parse_document(r#"{"a":[[]]}"#).unwrap();
    assert!(!edit_is_safe(&doc, &update("a[0].>18446744073709551615", "", "x")));
    assert!(edit_is_safe(&doc, &update("a[1].>18446744073709551615", "", "x")));
    assert!(edit_is_safe(&doc, &update("a[18446744073709551615]", "", "x")));
}

#[test]
fn exported_files() {
    assert_eq!(snapshot_file_name("kb", "20260617_101112"), "kb_20260617_101112.jsonld");
    assert_eq!(final_file_name("kb"), "kb.jsonld");
    assert_ne!(snapshot_file_name("kb", "20260617_101112"), snapshot_file_name("kb", "20260617_101113"));
    assert!(FINAL_CROISSANTS_DIR.ends_with("/final_croissants"));
}

#[test]
fn saves_at_the_same_time_go_to_different_files() {
    let stamp = "20260617_101112";
    let mut used = vec![final_file_name("kb")];
    for _ in 0..12 {
        let name = free_snapshot_name("kb", stamp, &used);
        assert!(!used.contains(&name));
        used.push(name);
    }
    assert_eq!(used[1], "kb_20260617_101112.jsonld");
    assert_eq!(used[2], "kb_20260617_101112_1.jsonld");
    assert_eq!(used[12], "kb_20260617_101112_11.jsonld");
    assert_eq!(free_snapshot_name("kb", "20260617_101113", &used), "kb_20260617_101113.jsonld");
    assert_eq!(free_snapshot_name("other", stamp, &used), "other_20260617_101112.jsonld");
    used.remove(2);
    assert_eq!(free_snapshot_name("kb", stamp, &used), "kb_20260617_101112_1.jsonld");
    assert_eq!(free_snapshot_name("kb", "20260617", &vec!["kb_20260617.jsonld".to_string()]), "kb_20260617_1.jsonld");
}

fn link(value: &str, url: &str) -> KbLink {
    KbLink {
        kb_name: "kb".to_string(),
        path: "name".to_string(),
        value: value.to_string(),
        url: url.to_string(),
        confidence: 0,
        reviewed: false,
        auto_reviewed: true,
    }
}

#[test]
fn changed_fields_are_recorded() {
    let corrected = correction_of(&Some(link("old", "http://a")), &update("name", "http://a", "new"));
    assert_eq!(
        corrected,
        Some(Correction {
            kb_name: "kb".to_string(),
            path: "name".to_string(),
            old_value: "old".to_string(),
            new_value: "new".to_string(),
            old_url: "http://a".to_string(),
            new_url: "http://a".to_string(),
        })
    );
    let moved = correction_of(&Some(link("old", "http://a")), &update("name", "http://b", "old")).unwrap();
    assert_eq!((moved.old_url.as_str(), moved.new_url.as_str()), ("http://a", "http://b"));
    assert_eq!(correction_of(&Some(link("old", "http://a")), &update("name", "http://a", "old")), None);
    assert_eq!(correction_of(&None, &update("name", "http://a", "new")), None);
}

#[test]
fn accepting_a_field_makes_it_reviewed() {
    let accepted = accept_link(Some(link("old", "http://a"))).unwrap();
    assert_eq!(accepted, KbLink { reviewed: true, ..link("old", "http://a") });
    let edit = update("name", "http://a", "old");
    assert_eq!(change_link(Some(link("old", "http://a")), "kb", &edit), LinkChange::Replace(accepted));
    assert_eq!(accept_link(None), None);
}

#[test]
fn an_edit_is_corrected_once() {
    let edit = update("name", "http://b", "new");
    match change_link(Some(link("old", "http://a")), "kb", &edit) {
        LinkChange::Replace(edited) => assert_eq!(correction_of(&Some(edited), &edit), None),
        LinkChange::Insert(_) => panic!("the field is there"),
    }
}

#[test]
fn notes_on_synchronisation() {
    assert_eq!(resync_note(ResyncOutcome::Synced), "Synced review fields to the new document.");
    assert_eq!(resync_note(ResyncOutcome::Failed), "Field resync step failed — check server logs.");
    assert_eq!(resync_note(ResyncOutcome::NotStarted), "Could not run field resync step — check server logs.");
    assert_eq!(
        commit_message(ResyncOutcome::Synced),
        "Committed. Synced review fields to the new document. Validation is running in the background — reload in a few seconds to see updated issues."
    );
}
