use rust_test::search::{
    collect_matches, dispatch_plan, file_matches, is_text_file_name, match_lines, DirEntry,
    FileLines, FileMatch, SearchError,
};

fn lines(ls: &[&str]) -> Vec<String> {
    ls.iter().map(|l| l.to_string()).collect()
}

fn entry(dir: &str, name: &str, is_file: bool) -> DirEntry {
    DirEntry { path: format!("{}/{}", dir, name), name: name.to_string(), is_file }
}

fn readable(path: &str, ls: &[&str]) -> FileLines {
    FileLines { path: path.to_string(), lines: Some(lines(ls)) }
}

fn rendered(ms: &[FileMatch]) -> Vec<String> {
    ms.iter().map(|m| m.render()).collect()
}

fn two_files() -> Vec<FileLines> {
    vec![
        readable("/tmp/d/test1.txt", &["Hello World"]),
        readable("/tmp/d/test2.txt", &["Rust programming"]),
    ]
}

#[test]
fn test_search_in_file_case_sensitive() {
    let results: Vec<String> = match_lines(&lines(&["Hello World", "Rust programming"]), "World", false)
        .iter()
        .map(|m| m.render())
        .collect();
    assert_eq!(results, vec!["1: Hello World"]);
}

#[test]
fn test_search_in_file_case_insensitive() {
    let results: Vec<String> = match_lines(&lines(&["Hello World", "Rust programming"]), "world", true)
        .iter()
        .map(|m| m.render())
        .collect();
    assert_eq!(results, vec!["1: Hello World"]);
}

#[test]
fn test_search_in_directory() {
    let results = rendered(&collect_matches(&two_files(), "Hello", false));
    assert_eq!(results.len(), 1);
    assert!(results[0].contains("test1.txt"));
    assert!(results[0].contains("Hello World"));
}

#[test]
fn test_search_in_directory_case_insensitive() {
    let results = rendered(&collect_matches(&two_files(), "hello", true));
    assert_eq!(results.len(), 1);
    assert!(results[0].contains("test1.txt"));
    assert!(results[0].contains("Hello World"));
}

#[test]
fn test_search_in_empty_directory() {
    let plan = dispatch_plan(true, Some(vec![])).unwrap();
    assert!(plan.is_empty());
    let results = collect_matches(&vec![], "Hello", false);
    assert!(results.is_empty());
}

#[test]
fn unreadable_file_adds_nothing() {
    let files = vec![
        FileLines { path: "/tmp/d/locked.txt".to_string(), lines: None },
        readable("/tmp/d/b.txt", &["Hello there"]),
    ];
    let results = rendered(&collect_matches(&files, "Hello", false));
    assert_eq!(results, vec!["/tmp/d/b.txt: 1: Hello there"]);
}

#[test]
fn only_non_text_files_give_no_work() {
    let listing = vec![
        entry("/tmp/d", "notes.md", true),
        entry("/tmp/d", "data.csv", true),
        entry("/tmp/d", "sub.txt", false),
    ];
    assert_eq!(dispatch_plan(true, Some(listing)), Ok(vec![]));
}

#[test]
fn empty_keyword_keeps_every_line() {
    let ls = lines(&["one", "", "Three"]);
    for ci in [false, true] {
        let ms = match_lines(&ls, "", ci);
        let got: Vec<(usize, String)> = ms.iter().map(|m| (m.line_number, m.line_text.clone())).collect();
        assert_eq!(
            got,
            vec![(1, "one".to_string()), (2, "".to_string()), (3, "Three".to_string())]
        );
    }
}

#[test]
fn case_insensitive_keyword_case_does_not_matter() {
    let ls = lines(&["Hello World", "nothing here"]);
    for kw in ["WORLD", "world"] {
        let ms = match_lines(&ls, kw, true);
        assert_eq!(ms.len(), 1);
        assert_eq!(ms[0].line_number, 1);
        assert_eq!(ms[0].line_text, "Hello World");
    }
    assert!(match_lines(&ls, "WORLD", false).is_empty());
}

#[test]
fn matches_come_in_line_order() {
    let ls = lines(&["ab", "x", "ab ab", "b", "cab"]);
    let ms = match_lines(&ls, "ab", false);
    let numbers: Vec<usize> = ms.iter().map(|m| m.line_number).collect();
    assert_eq!(numbers, vec![1, 3, 5]);
    assert_eq!(ms[2].line_text, "cab");
}

#[test]
fn file_without_match_adds_nothing() {
    let files = vec![
        readable("/tmp/d/a.txt", &["key one", "none", "key two"]),
        readable("/tmp/d/b.txt", &["none at all"]),
    ];
    let ms = collect_matches(&files, "key", false);
    let alone = match_lines(&lines(&["key one", "none", "key two"]), "key", false);
    assert_eq!(ms.len(), alone.len());
    assert_eq!(ms.len(), 2);
}

#[test]
fn missing_directory_is_refused() {
    assert_eq!(dispatch_plan(false, None), Err(SearchError::NotADirectory));
    let listing = vec![entry("/tmp/d", "a.txt", true)];
    assert_eq!(dispatch_plan(false, Some(listing)), Err(SearchError::NotADirectory));
}

#[test]
fn unlistable_directory_is_refused() {
    assert_eq!(dispatch_plan(true, None), Err(SearchError::DirectoryReadError));
}

#[test]
fn searching_twice_gives_the_same_matches() {
    let files = vec![
        readable("/tmp/d/a.txt", &["red", "blue red"]),
        readable("/tmp/d/b.txt", &["green red"]),
    ];
    let swapped = vec![
        readable("/tmp/d/b.txt", &["green red"]),
        readable("/tmp/d/a.txt", &["red", "blue red"]),
    ];
    let mut first = rendered(&collect_matches(&files, "red", false));
    let mut second = rendered(&collect_matches(&files, "red", false));
    let mut other_order = rendered(&collect_matches(&swapped, "red", false));
    assert_eq!(first, second);
    first.sort();
    second.sort();
    other_order.sort();
    assert_eq!(first, other_order);
    assert_eq!(first.len(), 3);
}

#[test]
fn hello_found_in_one_of_two_files() {
    let ms = collect_matches(&two_files(), "Hello", false);
    assert_eq!(ms.len(), 1);
    assert_eq!(ms[0].path, "/tmp/d/test1.txt");
    assert_eq!(ms[0].line_number, 1);
    assert_eq!(ms[0].line_text, "Hello World");
}

#[test]
fn dispatch_keeps_text_files_in_listing_order() {
    let listing = vec![
        entry("/tmp/d", "b.txt", true),
        entry("/tmp/d", "a.md", true),
        entry("/tmp/d", "a.txt", true),
        entry("/tmp/d", "dir.txt", false),
    ];
    assert_eq!(
        dispatch_plan(true, Some(listing)),
        Ok(vec!["/tmp/d/b.txt".to_string(), "/tmp/d/a.txt".to_string()])
    );
}

#[test]
fn text_file_names() {
    assert!(is_text_file_name("a.txt"));
    assert!(is_text_file_name("x..txt"));
    assert!(is_text_file_name("a.b.txt"));
    assert!(!is_text_file_name(".txt"));
    assert!(!is_text_file_name("a.TXT"));
    assert!(!is_text_file_name("a.txt.bak"));
    assert!(!is_text_file_name("txt"));
    assert!(!is_text_file_name("atxt"));
}

#[test]
fn file_matches_tags_each_line() {
    let ms = file_matches("/tmp/d/f.txt", &lines(&["Rust", "rust", "RUST"]), "rust", true);
    assert_eq!(
        rendered(&ms),
        vec!["/tmp/d/f.txt: 1: Rust", "/tmp/d/f.txt: 2: rust", "/tmp/d/f.txt: 3: RUST"]
    );
    let exact = file_matches("/tmp/d/f.txt", &lines(&["Rust", "rust", "RUST"]), "rust", false);
    assert_eq!(rendered(&exact), vec!["/tmp/d/f.txt: 2: rust"]);
}
