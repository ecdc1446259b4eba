use dupfinder::grouping::{duplicate_groups, ReportEntry};
use dupfinder::index::HashIndex;
use dupfinder::report::{parse_report, render_report};

fn bytes_of(s: &str) -> Vec<u8> {
    s.as_bytes().to_vec()
}

fn fake_digest(tag: u8) -> Vec<u8> {
    vec![tag; 32]
}

#[test]
fn render_empty_report() {
    let entries: Vec<ReportEntry> = Vec::new();
    assert_eq!(render_report(&entries), bytes_of("[]"));
}

#[test]
fn render_one_entry() {
    let entries = vec![ReportEntry {
        folders: vec![bytes_of("/r/a"), bytes_of("/r/b")],
        files: vec![bytes_of("/r/b/y.txt")],
    }];
    let expected = r#"[{"folders":["/r/a","/r/b"],"files":["/r/b/y.txt"]}]"#;
    assert_eq!(render_report(&entries), bytes_of(expected));
}

#[test]
fn render_two_entries() {
    let entries = vec![
        ReportEntry {
            folders: vec![bytes_of("/a")],
            files: vec![bytes_of("/a/1"), bytes_of("/a/2")],
        },
        ReportEntry {
            folders: vec![],
            files: vec![bytes_of("x")],
        },
    ];
    let expected = r#"[{"folders":["/a"],"files":["/a/1","/a/2"]},{"folders":[],"files":["x"]}]"#;
    assert_eq!(render_report(&entries), bytes_of(expected));
}

#[test]
fn render_escapes_special_bytes() {
    let entries = vec![ReportEntry {
        folders: vec![bytes_of("/odd\"dir\\name")],
        files: vec![bytes_of("/odd\"dir\\name/tab\there")],
    }];
    let expected = r#"[{"folders":["/odd\"dir\\name"],"files":["/odd\"dir\\name/tab\u0009here"]}]"#;
    assert_eq!(render_report(&entries), bytes_of(expected));
}

fn entries_equal(a: &[ReportEntry], b: &[ReportEntry]) -> bool {
    a.len() == b.len()
        && a.iter()
            .zip(b.iter())
            .all(|(x, y)| x.folders == y.folders && x.files == y.files)
}

#[test]
fn round_trip_simple_report() {
    let entries = vec![ReportEntry {
        folders: vec![bytes_of("/root/a"), bytes_of("/root/b")],
        files: vec![bytes_of("/root/b/y.txt")],
    }];
    let rendered = render_report(&entries);
    let parsed = parse_report(&rendered).expect("rendered report must parse");
    assert!(entries_equal(&entries, &parsed));
}

#[test]
fn round_trip_with_escapes_and_empty_strings() {
    let entries = vec![
        ReportEntry {
            folders: vec![bytes_of("")],
            files: vec![bytes_of("quote\" slash\\ newline\n bell\u{7}")],
        },
        ReportEntry {
            folders: vec![bytes_of("/plain")],
            files: vec![bytes_of("/plain/one"), bytes_of("/plain/two")],
        },
    ];
    let rendered = render_report(&entries);
    let parsed = parse_report(&rendered).expect("rendered report must parse");
    assert!(entries_equal(&entries, &parsed));
}

#[test]
fn round_trip_of_grouping_output() {
    let mut ix = HashIndex::new();
    ix.merge(fake_digest(1), bytes_of("/root/a/x.txt"));
    ix.merge(fake_digest(1), bytes_of("/root/b/y.txt"));
    ix.merge(fake_digest(2), bytes_of("/root/c/z.txt"));
    let entries = duplicate_groups(&ix);
    let rendered = render_report(&entries);
    let parsed = parse_report(&rendered).expect("rendered report must parse");
    assert!(entries_equal(&entries, &parsed));
    // The parsed folder arrays are the canonical keys: already sorted.
    for e in &parsed {
        let mut sorted = e.folders.clone();
        sorted.sort();
        assert_eq!(sorted, e.folders);
    }
}

#[test]
fn parse_rejects_garbage() {
    assert!(parse_report(&bytes_of("nonsense")).is_none());
    assert!(parse_report(&bytes_of("")).is_none());
    assert!(parse_report(&bytes_of("[{}]")).is_none());
}

#[test]
fn parse_rejects_trailing_bytes() {
    let entries = vec![ReportEntry {
        folders: vec![bytes_of("/a")],
        files: vec![bytes_of("/a/f")],
    }];
    let mut rendered = render_report(&entries);
    rendered.push(b' ');
    assert!(parse_report(&rendered).is_none());
}

#[test]
fn rendered_report_is_valid_json() {
    let mut ix = HashIndex::new();
    ix.merge(fake_digest(1), bytes_of("/root/a/x.txt"));
    ix.merge(fake_digest(1), bytes_of("/root/b/y.txt"));
    let entries = duplicate_groups(&ix);
    let rendered = render_report(&entries);
    let value: serde_json::Value =
        serde_json::from_slice(&rendered).expect("the report must be well-formed JSON");
    let arr = value.as_array().expect("the report is an array");
    assert_eq!(arr.len(), 1);
    let folders = arr[0]["folders"].as_array().expect("folders array");
    let names: Vec<&str> = folders.iter().map(|v| v.as_str().unwrap()).collect();
    assert_eq!(names, vec!["/root/a", "/root/b"]);
    let files = arr[0]["files"].as_array().expect("files array");
    assert_eq!(files.len(), 1);
}
