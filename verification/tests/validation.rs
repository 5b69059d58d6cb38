use robo_croissant::review::KbLink;
use robo_croissant::validate::{
    approve, field_approvals, head_approvals, header_tasks, read_header, text_file, update_batches, url_tasks,
    valid_data_type, valid_type, vocabulary_approvals, CheckedUrl, FileHeader, HeadReply, HeaderTask, UrlTask,
};

fn link(path: &str, value: &str) -> KbLink {
    KbLink {
        kb_name: "kb".to_string(),
        path: path.to_string(),
        value: value.to_string(),
        url: String::new(),
        confidence: 0,
        reviewed: false,
        auto_reviewed: false,
    }
}

fn strings(list: &[&str]) -> Vec<String> {
    list.iter().map(|s| s.to_string()).collect()
}

fn task(path: &str, prefix: &str, url: &str) -> UrlTask {
    UrlTask { path: path.to_string(), prefix: prefix.to_string(), url: url.to_string() }
}

fn reply(status: u16, content_type: Option<&str>, content_length: Option<&str>) -> Option<HeadReply> {
    Some(HeadReply {
        status,
        content_type: content_type.map(|s| s.to_string()),
        content_length: content_length.map(|s| s.to_string()),
    })
}

#[test]
fn vocabularies() {
    for t in ["sc:Dataset", "cr:FileObject", "cr:FileSet", "cr:RecordSet", "cr:Field", "sc:Organization", "sc:Person", "sc:CreativeWork"] {
        assert!(valid_type(t));
        assert!(!valid_data_type(t));
    }
    for t in ["sc:Text", "sc:Integer", "sc:Float", "sc:Boolean", "sc:Date", "sc:Time", "sc:DateTime", "sc:URL"] {
        assert!(valid_data_type(t));
        assert!(!valid_type(t));
    }
    assert!(!valid_type(""));
    assert!(!valid_type("sc:dataset"));
}

#[test]
fn vocabulary_checks() {
    let links = vec![
        link("@type", "sc:Dataset"),
        link("distribution[0].@type", "sc:Nothing"),
        link("recordSet[0].field[0].dataType", "sc:Text"),
        link("recordSet[0].field[1].dataType", "text"),
        link("distribution[0].@id", "file"),
        link("distribution[1].@id", ""),
        link("recordSet[0].field[0].source.fileObject.@id", "file"),
        link("recordSet[0].field[1].source.fileObject.@id", "nowhere"),
        link("recordSet[0].field[1].source.fileSet.@id", "nowhere"),
        link("conformsTo", "http://mlcommons.org/croissant/1.0"),
        link("conformsTo", "http://mlcommons.org/croissant/0.8"),
        link("x.conformsTo", "http://mlcommons.org/croissant/1.0"),
        link("name", "kb"),
    ];
    assert_eq!(
        vocabulary_approvals(&links),
        strings(&[
            "@type",
            "recordSet[0].field[0].dataType",
            "distribution[0].@id",
            "recordSet[0].field[0].source.fileObject.@id",
            "recordSet[0].field[1].source.fileSet.@id",
            "conformsTo",
        ])
    );
}

#[test]
fn addresses_to_ask() {
    let links = vec![
        link("distribution[0].contentUrl", "http://a/x.csv"),
        link("distribution[0].contentUrl.x", "http://b"),
        link("xdistribution[0].contentUrl", "http://c"),
        link("distribution[].contentUrl", "http://d"),
        link("distribution[12].contentUrl", "http://e"),
    ];
    assert_eq!(
        url_tasks(&links),
        vec![
            task("distribution[0].contentUrl", "distribution[0]", "http://a/x.csv"),
            task("distribution[12].contentUrl", "distribution[12]", "http://e"),
        ]
    );
}

#[test]
fn answers_approve_what_agrees() {
    let links = vec![
        link("distribution[0].contentUrl", "http://a/x.csv?v=1"),
        link("distribution[0].name", "x.csv"),
        link("distribution[0].encodingFormat", "text/csv"),
        link("distribution[0].contentSize", "12"),
        link("distribution[1].contentUrl", "http://a/"),
        link("distribution[1].name", ""),
        link("distribution[1].encodingFormat", ""),
        link("distribution[1].contentSize", "13"),
        link("distribution[2].contentUrl", "http://b"),
    ];
    let checked = vec![
        CheckedUrl {
            task: task("distribution[0].contentUrl", "distribution[0]", "http://a/x.csv?v=1"),
            reply: reply(200, Some(" text/csv ; charset=utf-8"), Some("12")),
        },
        CheckedUrl {
            task: task("distribution[1].contentUrl", "distribution[1]", "http://a/"),
            reply: reply(302, None, Some("12")),
        },
        CheckedUrl { task: task("distribution[2].contentUrl", "distribution[2]", "http://b"), reply: None },
        CheckedUrl {
            task: task("distribution[2].contentUrl", "distribution[2]", "http://c"),
            reply: reply(404, None, None),
        },
    ];
    let (approved, failed) = head_approvals(&links, &checked);
    assert_eq!(
        approved,
        strings(&[
            "distribution[0].contentUrl",
            "distribution[0].name",
            "distribution[0].encodingFormat",
            "distribution[0].contentSize",
            "distribution[1].contentUrl",
        ])
    );
    assert_eq!(failed, strings(&["http://b", "http://c"]));
}

#[test]
fn text_files() {
    assert!(text_file("http://x/a.csv", ""));
    assert!(text_file("https://x/A.TSV", ""));
    assert!(text_file("http://x/a", "text/tab-separated-values"));
    assert!(text_file("http://x/a", "text/csv"));
    assert!(!text_file("http://x/a.csv.gz", "text/csv"));
    assert!(!text_file("http://x/a.ZIP", "text/csv"));
    assert!(!text_file("ftp://x/a.csv", ""));
    assert!(!text_file("http://x/a.json", "application/json"));
}

#[test]
fn header_rows() {
    assert_eq!(read_header(200, b" a ,\"b\", \"\"c\nx", ""), Some(strings(&["a", "b", "c"])));
    assert_eq!(read_header(206, b"a\tb\r\nc", ""), Some(strings(&["a", "b"])));
    assert_eq!(read_header(200, b"a,b", "text/tab-separated-values"), Some(strings(&["a,b"])));
    assert_eq!(read_header(200, b"a,b\r", ""), Some(strings(&["a", "b"])));
    assert_eq!(read_header(200, b"\n", ""), Some(strings(&[""])));
    assert_eq!(read_header(200, "é,ü".as_bytes(), ""), Some(strings(&["é", "ü"])));
    assert_eq!(read_header(200, b"", ""), None);
    assert_eq!(read_header(200, &[0xff, 0x41], ""), None);
    assert_eq!(read_header(404, b"a,b", ""), None);
    assert_eq!(read_header(302, b"a,b", ""), None);
}

fn field_links() -> Vec<KbLink> {
    vec![
        link("distribution[0].@id", "file"),
        link("distribution[0].contentUrl", "http://a/x.csv"),
        link("distribution[0].encodingFormat", "text/csv"),
        link("distribution[1].@id", "archive"),
        link("distribution[1].contentUrl", "http://a/x.zip"),
        link("recordSet[0].field[0].name", "one"),
        link("recordSet[0].field[0].source.extract.column", "ONE"),
        link("recordSet[0].field[0].source.fileObject.@id", "file"),
        link("recordSet[0].field[0].source.fileSet.@id", "archive"),
        link("recordSet[0].field[1].name", "two"),
        link("recordSet[0].field[1].source.extract.column", "two"),
        link("recordSet[0].field[1].source.fileSet.@id", "file"),
        link("recordSet[0].field[2].name", "one"),
        link("recordSet[0].field[2].source.fileObject.@id", "archive"),
        link("recordSet[0].field[3].name", "one"),
    ]
}

#[test]
fn each_file_is_asked_for_once() {
    let tasks = header_tasks(&field_links());
    assert_eq!(tasks, vec![HeaderTask { url: "http://a/x.csv".to_string(), format: "text/csv".to_string() }]);
}

#[test]
fn header_rows_approve_names_and_columns() {
    let headers = vec![FileHeader { url: "http://a/x.csv".to_string(), columns: Some(strings(&["one", "two"])) }];
    assert_eq!(
        field_approvals(&field_links(), &headers),
        strings(&[
            "recordSet[0].field[0].name",
            "recordSet[0].field[1].source.extract.column",
            "recordSet[0].field[1].name",
        ])
    );
    let unread = vec![FileHeader { url: "http://a/x.csv".to_string(), columns: None }];
    assert_eq!(field_approvals(&field_links(), &unread), strings(&[]));
}

#[test]
fn approvals_are_sorted_and_only_of_fields() {
    let links = field_links();
    let checked: Vec<CheckedUrl> = url_tasks(&links)
        .into_iter()
        .map(|t| CheckedUrl { task: t, reply: reply(200, Some("text/csv"), None) })
        .collect();
    let headers = vec![FileHeader { url: "http://a/x.csv".to_string(), columns: Some(strings(&["one", "two"])) }];
    let r = approve(&links, &checked, &headers);
    assert_eq!(
        r.paths,
        strings(&[
            "distribution[0].@id",
            "distribution[0].contentUrl",
            "distribution[0].encodingFormat",
            "distribution[1].@id",
            "distribution[1].contentUrl",
            "recordSet[0].field[0].name",
            "recordSet[0].field[0].source.fileObject.@id",
            "recordSet[0].field[0].source.fileSet.@id",
            "recordSet[0].field[1].name",
            "recordSet[0].field[1].source.extract.column",
            "recordSet[0].field[1].source.fileSet.@id",
            "recordSet[0].field[2].source.fileObject.@id",
        ])
    );
    assert_eq!(r.failed_urls, strings(&[]));
    for p in &r.paths {
        assert!(links.iter().any(|l| &l.path == p));
    }
}

#[test]
fn the_last_of_equal_paths_counts() {
    let links = vec![
        link("distribution[0].name", "x.csv"),
        link("distribution[0].name", "other"),
        link("distribution[0].contentUrl", "http://a/x.csv"),
    ];
    let checked = vec![CheckedUrl {
        task: task("distribution[0].contentUrl", "distribution[0]", "http://a/x.csv"),
        reply: reply(200, None, None),
    }];
    assert_eq!(head_approvals(&links, &checked).0, strings(&["distribution[0].contentUrl"]));
}

#[test]
fn batches() {
    let paths: Vec<String> = (0..1001).map(|i| format!("{}", i)).collect();
    let b = update_batches(&paths);
    assert_eq!(b.iter().map(|x| x.len()).collect::<Vec<_>>(), vec![500, 500, 1]);
    assert_eq!(b.concat(), paths);
    assert_eq!(update_batches(&vec![]), Vec::<Vec<String>>::new());
    assert_eq!(update_batches(&paths[..500].to_vec()).len(), 1);
}

#[test]
fn every_address_is_approved_or_reported() {
    let links = field_links();
    let tasks = url_tasks(&links);
    assert_eq!(tasks.len(), 2);
    let checked: Vec<CheckedUrl> = tasks
        .into_iter()
        .enumerate()
        .map(|(i, t)| CheckedUrl { task: t, reply: if i == 0 { reply(200, None, None) } else { None } })
        .collect();
    let r = approve(&links, &checked, &vec![]);
    assert!(r.paths.contains(&"distribution[0].contentUrl".to_string()));
    assert!(!r.paths.contains(&"distribution[1].contentUrl".to_string()));
    assert_eq!(r.failed_urls, strings(&["http://a/x.zip"]));
}
