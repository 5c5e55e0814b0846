use facet_dev::quoting::path_in_text;
use facet_dev::status::{parse_status, reads_as_status, staged_files, status_command};

fn paths(status: &str) -> Vec<String> {
    assert!(reads_as_status(status));
    parse_status(status).clean.into_iter().map(|p| String::from_utf8(p).unwrap()).collect()
}

#[test]
fn git_is_asked_for_states() {
    assert_eq!(status_command(), ["git", "status", "--porcelain"]);
}

#[test]
fn staged_files_that_are_not_dirty_are_clean() {
    assert_eq!(paths("M  src/main.rs\nA  foo.rs\nAM foo/bar.rs\n"), ["src/main.rs", "foo.rs"]);
}

#[test]
fn unstaged_and_untracked_files_are_not_clean() {
    assert!(paths(" M a.rs\n?? b.rs\nMM c.rs\n D d.rs\n").is_empty());
    assert_eq!(paths("D  gone.rs\n"), ["gone.rs"]);
}

#[test]
fn renamed_and_copied_files_are_listed_with_their_present_path() {
    assert_eq!(paths("R  old.rs -> new.rs\nC  a.rs -> b.rs\n"), ["new.rs", "b.rs"]);
    assert_eq!(paths("R  \"a -> \\\"b.rs\" -> c.rs\n"), ["c.rs"]);
    assert_eq!(paths("R  é.rs -> \"a -> b.rs\"\n"), ["a -> b.rs"]);
    assert_eq!(paths("M  a -> b\nR  a\nR  \n"), ["a -> b", "a", ""]);
    assert!(paths("RM old.rs -> new.rs\n").is_empty());
}

#[test]
fn quoted_paths_are_listed_without_quotes() {
    assert_eq!(paths("A  \"a b.rs\"\n"), ["a b.rs"]);
    assert_eq!(paths("M  \"\\303\\251\\t\\\"\\\\.rs\"\n"), ["é\t\"\\.rs"]);
    assert_eq!(paths("M  \"é b.rs\"\n"), ["é b.rs"]);
    assert_eq!(paths("R  \"a b\" -> \"c d\"\n"), ["c d"]);
    assert_eq!(paths("M  \"a\nM  \"a\"b\nM  \"\\q\"\n"), ["\"a", "\"a\"b", "\"\\q\""]);
    let files = staged_files(b"M  \"\\377.rs\"\n").unwrap();
    assert_eq!(files.clean, [b"\xff.rs".to_vec()]);
}

#[test]
fn escapes_of_paths_are_read() {
    let read = path_in_text("\"\\a\\b\\t\\n\\v\\f\\r\\\"\\\\\\000\\177\\200\\377\"");
    assert_eq!(read, [7, 8, 9, 10, 11, 12, 13, 34, 92, 0, 127, 128, 255]);
    assert_eq!(path_in_text("\"\\400\""), b"\"\\400\"");
    assert_eq!(path_in_text("\"\""), b"");
    assert_eq!(path_in_text("a\"b\""), b"a\"b\"");
}

#[test]
fn short_lines_are_skipped() {
    assert!(paths("\nM\nM \n").is_empty());
    assert_eq!(paths("M  \n"), [""]);
}

#[test]
fn paths_need_not_be_ascii() {
    assert_eq!(paths("M  é.rs"), ["é.rs"]);
}

#[test]
fn what_is_no_status_is_refused() {
    assert!(!reads_as_status("€"));
    assert!(!reads_as_status("M  a\nab€"));
    assert!(reads_as_status("é a"));
    assert!(staged_files("€".as_bytes()).is_none());
}

#[test]
fn bytes_of_a_status_are_read() {
    let files = staged_files(b"M  a.rs\n?? b.rs\n").unwrap();
    assert_eq!(files.clean, [b"a.rs".to_vec()]);
    let files = staged_files(b"M  \xff.rs\n").unwrap();
    assert_eq!(files.clean, ["\u{fffd}.rs".as_bytes().to_vec()]);
    assert!(staged_files(b"").unwrap().clean.is_empty());
}
