use gyroflow_bench::lookup::{
    ambiguity_note, has_json_extension, list_error_line, list_line, list_order, no_directory_line,
    resolve, ResolveError, Resolved, ResultFile,
};
use gyroflow_bench::result::GitInfo;

fn file(name: &str, label: &str, modified: Option<i128>) -> ResultFile {
    ResultFile { name: Some(name.to_string()), label: Some(label.to_string()), modified }
}

#[test]
fn json_extension_agrees_with_std() {
    for name in ["a.json", ".json", "..json", "a.b.json", "json", "a.JSON", "a.json.bak", "x.jsonl", ""] {
        let std = std::path::Path::new(name).extension().map(|x| x == "json").unwrap_or(false);
        assert_eq!(has_json_extension(name.as_bytes()), std, "{name}");
    }
}

#[test]
fn existing_paths_are_taken_as_they_are() {
    let files = [file("main.json", "main", Some(1))];
    assert_eq!(resolve("main", true, true, &files), Ok(Resolved::Path));
    assert_eq!(resolve("main", true, false, &[]), Ok(Resolved::Path));
}

#[test]
fn exact_labels_come_before_names() {
    let files = [
        file("20240101_main2.json", "main2", Some(9)),
        file("20240102_x.json", "main", Some(1)),
    ];
    assert_eq!(resolve("main", false, true, &files), Ok(Resolved::File { index: 1, matches: 1 }));
    assert_eq!(resolve("2024", false, true, &files), Ok(Resolved::File { index: 0, matches: 2 }));
}

#[test]
fn the_newest_match_is_taken() {
    let files = [
        file("a.json", "run", Some(5)),
        file("b.json", "run", None),
        file("c.json", "run", Some(7)),
        file("d.json", "other", Some(9)),
        file("e.json", "run", Some(7)),
        file("f.json", "run", Some(-3)),
    ];
    assert_eq!(resolve("run", false, true, &files), Ok(Resolved::File { index: 4, matches: 5 }));
    let unknown = [file("a.json", "run", None), file("b.json", "run", None)];
    assert_eq!(resolve("run", false, true, &unknown), Ok(Resolved::File { index: 1, matches: 2 }));
}

#[test]
fn unreadable_files_are_found_by_name_only() {
    let files = [
        ResultFile { name: Some("broken.json".to_string()), label: None, modified: None },
        ResultFile { name: None, label: Some("odd".to_string()), modified: None },
    ];
    assert_eq!(resolve("broken", false, true, &files), Ok(Resolved::File { index: 0, matches: 1 }));
    assert_eq!(resolve("odd", false, true, &files), Ok(Resolved::File { index: 1, matches: 1 }));
}

#[test]
fn failures_say_why() {
    let e = resolve("x", false, false, &[]).unwrap_err();
    assert_eq!(e, ResolveError::NoDirectory);
    assert_eq!(e.message("x", "bench/results"), "'x' is not a path and bench/results does not exist");
    let e = resolve("x", false, true, &[file("a.json", "l", None)]).unwrap_err();
    assert_eq!(e, ResolveError::NoMatch);
    assert_eq!(e.message("x", "d"), "no result file in d matches 'x'");
}

#[test]
fn ambiguity_is_mentioned() {
    assert_eq!(
        ambiguity_note("main", 12, "b.json"),
        "note: 'main' matched 12 files; using newest: b.json"
    );
}

#[test]
fn listing_is_in_dictionary_order() {
    let names: Vec<Vec<u8>> =
        vec![b"b".to_vec(), b"a\xff".to_vec(), b"a".to_vec(), b"b".to_vec(), b"".to_vec()];
    assert_eq!(list_order(&names), vec![4, 2, 1, 0, 3]);
    assert_eq!(list_order(&[]), Vec::<usize>::new());
}

#[test]
fn listing_text() {
    let git = GitInfo { plugin_rev: "0123456789".to_string(), core_rev: "abc".to_string() };
    assert_eq!(
        list_line("n.json", "base", &git),
        format!("{}  label={:<20} plugin={} core={}", "n.json", "base", "0123456", "abc")
    );
    assert_eq!(list_error_line("d/n.json", "bad"), "d/n.json  (parse error: bad)");
    assert_eq!(no_directory_line("d"), "(no results dir at d)");
}
