use crabaccess::cli::{
    discover_access_logs, sort_texts, text_less, Args, DirEntryInfo, InputKind, ResolveError,
    SortBy,
};

fn args_for(files: Vec<&str>) -> Args {
    Args {
        files: files.into_iter().map(|f| f.to_owned()).collect(),
        load_db: None,
        save_db: None,
        export_csv: None,
        top: 30,
        graph_items: 0,
        sort_by: SortBy::Visits,
        group_ip_regex: "^(.*)$".to_owned(),
        group_ip_replace: "$1".to_owned(),
        group_path_regex: "^(.*)$".to_owned(),
        group_path_replace: "$1".to_owned(),
        group_ua_regex: "^(.*)$".to_owned(),
        group_ua_replace: "$1".to_owned(),
    }
}

fn entry(dir: &str, name: &str, is_file: bool) -> DirEntryInfo {
    DirEntryInfo { path: format!("{dir}/{name}"), file_name: name.to_owned(), is_file }
}

#[test]
fn resolve_expands_directory_listing_to_sorted_access_logs() {
    let dir = "/tmp/logs";
    let listing = vec![
        entry(dir, "error.log", true),
        entry(dir, "access.log.1", true),
        entry(dir, "child", false),
        entry(dir, "access.log", true),
    ];
    let args = args_for(vec![dir]);
    let resolved = args
        .resolve_input_files(&vec![InputKind::Directory(listing)])
        .expect("directory should resolve");
    assert_eq!(resolved, vec!["/tmp/logs/access.log".to_owned(), "/tmp/logs/access.log.1".to_owned()]);
}

#[test]
fn resolve_fails_for_directory_without_access_logs() {
    let dir = "/tmp/empty";
    let args = args_for(vec![dir]);
    let error = args
        .resolve_input_files(&vec![InputKind::Directory(vec![entry(dir, "error.log", true)])])
        .expect_err("directory without access logs should fail");
    assert_eq!(error, ResolveError::NoAccessLogs("/tmp/empty".to_owned()));
}

#[test]
fn resolve_keeps_files_in_order_and_reports_unreadable_directories() {
    let args = args_for(vec!["b.log", "/d", "a.log"]);
    let kinds = vec![
        InputKind::File,
        InputKind::Directory(vec![entry("/d", "access.log.2", true), entry("/d", "access.log", true)]),
        InputKind::File,
    ];
    let resolved = args.resolve_input_files(&kinds).expect("inputs should resolve");
    assert_eq!(resolved, vec!["b.log", "/d/access.log", "/d/access.log.2", "a.log"]);

    let args = args_for(vec!["x.log", "/locked", "/empty"]);
    let kinds = vec![
        InputKind::File,
        InputKind::Unreadable("permission denied".to_owned()),
        InputKind::Directory(Vec::new()),
    ];
    assert_eq!(
        args.resolve_input_files(&kinds).expect_err("unreadable directory"),
        ResolveError::Unreadable("permission denied".to_owned())
    );
}

#[test]
fn resolve_without_inputs_fails() {
    let args = args_for(Vec::new());
    assert_eq!(args.resolve_input_files(&Vec::new()).expect_err("no inputs"), ResolveError::NoInputs);
}

#[test]
fn discover_keeps_only_files_named_like_access_logs() {
    let listing = vec![
        entry("/v", "access.log.10", true),
        entry("/v", "access.lo", true),
        entry("/v", "access.log.dir", false),
        entry("/v", "xaccess.log", true),
        entry("/v", "access.log.9", true),
    ];
    assert_eq!(discover_access_logs(&listing), vec!["/v/access.log.10", "/v/access.log.9"]);
}

#[test]
fn texts_sort_in_character_order() {
    let sorted = sort_texts(vec!["b".to_owned(), "a".to_owned(), "B".to_owned(), "ab".to_owned(), "a".to_owned()]);
    assert_eq!(sorted, vec!["B", "a", "a", "ab", "b"]);
    assert!(text_less("abc", "abd"));
    assert!(text_less("ab", "abc"));
    assert!(!text_less("abc", "abc"));
    assert!(!text_less("é", "z"));
}

#[test]
fn sort_order_toggles_back_and_forth() {
    assert_eq!(SortBy::Visits.toggled(), SortBy::Traffic);
    assert_eq!(SortBy::Traffic.toggled(), SortBy::Visits);
    assert_eq!(SortBy::Visits.toggled().toggled(), SortBy::Visits);
}
