use facet_dev::command::CommandOutput;
use facet_dev::generated::{
    fmt_command, fmt_listing, github_funding_job, github_workflow_job, husky_available,
    husky_command, precommit_hook_job, rustfmt_command, rustfmt_job, rustfmt_targets,
};
use facet_dev::job::{announce, pending_jobs, sort_jobs, Job};
use facet_dev::metadata::parse_metadata;
use facet_dev::status::StagedFiles;
use facet_dev::templates::{
    CARGO_HUSKY_PRECOMMIT_HOOK, GITHUB_FUNDING_YML, GITHUB_TEST_WORKFLOW,
};

fn job(path: &str, old: Option<&str>, new: &str, executable: bool) -> Job {
    Job {
        path: path.as_bytes().to_vec(),
        old_content: old.map(|o| o.as_bytes().to_vec()),
        new_content: new.as_bytes().to_vec(),
        executable,
    }
}

fn output(code: Option<i32>, stdout: &str) -> CommandOutput {
    CommandOutput {
        code,
        status: "exit status".to_string(),
        stdout: stdout.as_bytes().to_vec(),
        stderr: Vec::new(),
    }
}

#[test]
fn a_job_is_a_noop_if_nothing_would_change() {
    assert!(job("a", Some("x"), "x", false).is_noop(Some(0o644)));
    assert!(!job("a", Some("x"), "y", false).is_noop(Some(0o644)));
    assert!(!job("a", Some("x"), "x", true).is_noop(Some(0o644)));
    assert!(job("a", Some("x"), "x", true).is_noop(Some(0o744)));
    assert!(!job("a", Some("x"), "x", false).is_noop(Some(0o645)));
    assert!(job("a", Some("x"), "x", false).is_noop(None));
    assert!(!job("a", Some("x"), "x", true).is_noop(None));
}

#[test]
fn a_job_for_a_missing_file_is_a_noop_if_it_writes_nothing() {
    assert!(job("a", None, "", false).is_noop(None));
    assert!(job("a", None, "", false).is_noop(Some(0o755)));
    assert!(!job("a", None, "", true).is_noop(None));
    assert!(!job("a", None, "x", false).is_noop(None));
}

#[test]
fn an_applied_job_is_a_noop() {
    let first = job("a", None, "x", true);
    let mode = first.mode_to_set(0o644).unwrap();
    assert_eq!(mode, 0o755);
    assert!(job("a", Some("x"), "x", true).is_noop(Some(mode)));
    assert_eq!(job("a", None, "x", false).mode_to_set(0o644), None);
    assert!(job("a", Some("x"), "x", false).is_noop(Some(0o644)));
    // Permissions are never taken away.
    assert!(!job("a", Some("x"), "x", false).is_noop(Some(0o755)));
}

#[test]
fn pending_jobs_keep_their_order() {
    let jobs = vec![
        (job("c", None, "1", false), None),
        (job("b", Some("x"), "x", false), Some(0o644)),
        (job("a", Some("x"), "y", false), Some(0o644)),
    ];
    let paths: Vec<Vec<u8>> = pending_jobs(jobs).into_iter().map(|j| j.path).collect();
    assert_eq!(paths, [b"c".to_vec(), b"a".to_vec()]);
}

#[test]
fn jobs_are_sorted_by_path() {
    let paths = ["b", "a-b", "a/b", "./z", "/y", "a//b", "a"];
    let jobs: Vec<Job> = paths.iter().map(|p| job(p, None, "", false)).collect();
    let sorted: Vec<String> =
        sort_jobs(jobs).into_iter().map(|j| String::from_utf8(j.path).unwrap()).collect();
    let mut expected: Vec<std::path::PathBuf> =
        paths.iter().map(std::path::PathBuf::from).collect();
    expected.sort();
    let expected: Vec<&str> = expected.iter().map(|p| p.to_str().unwrap()).collect();
    assert_eq!(sorted, expected);
    assert_eq!(sorted, ["/y", "./z", "a", "a/b", "a//b", "a-b", "b"]);
}

#[test]
fn jobs_with_equal_paths_keep_their_order() {
    let jobs = vec![
        job("b", None, "1", false),
        job("a//c", None, "2", false),
        job("a/c", None, "3", false),
        job("b", None, "4", false),
    ];
    let contents: Vec<Vec<u8>> = sort_jobs(jobs).into_iter().map(|j| j.new_content).collect();
    assert_eq!(contents, [b"2", b"3", b"1", b"4"]);
}

#[test]
fn announcements_count_files() {
    assert_eq!(announce(1), "The following 1 file will be updated/generated:");
    assert_eq!(announce(12), "The following 12 files will be updated/generated:");
}

#[test]
fn a_workflow_kept_by_hand_is_left_alone() {
    let kept = b"name: x\n# HANDWRITTEN: facet-dev\n".to_vec();
    assert!(github_workflow_job(Some(kept)).is_none());
    let other = b"name: x\n".to_vec();
    let found = github_workflow_job(Some(other.clone())).unwrap();
    assert_eq!(found.path, b".github/workflows/test.yml");
    assert_eq!(found.old_content, Some(other));
    assert_eq!(found.new_content, GITHUB_TEST_WORKFLOW.as_bytes());
    assert!(!found.executable);
    assert!(github_workflow_job(None).is_some());
}

#[test]
fn a_marker_in_what_is_no_text_does_not_count() {
    let mut bytes = b"# HANDWRITTEN: facet-dev".to_vec();
    bytes.push(0xff);
    assert!(github_workflow_job(Some(bytes)).is_some());
}

#[test]
fn funding_file_and_hook_are_written() {
    let funding = github_funding_job(None);
    assert_eq!(funding.path, b".github/FUNDING.yml");
    assert_eq!(funding.new_content, GITHUB_FUNDING_YML.as_bytes());
    assert!(!funding.executable);
    let hook = precommit_hook_job(Some(Vec::new()));
    assert_eq!(hook.path, b".cargo-husky/hooks/pre-commit");
    assert_eq!(hook.old_content, Some(Vec::new()));
    assert_eq!(hook.new_content, CARGO_HUSKY_PRECOMMIT_HOOK.as_bytes());
    assert!(hook.executable);
}

#[test]
fn generated_files_that_are_up_to_date_need_no_job() {
    let text = GITHUB_FUNDING_YML.as_bytes().to_vec();
    assert!(github_funding_job(Some(text)).is_noop(Some(0o644)));
    let text = CARGO_HUSKY_PRECOMMIT_HOOK.as_bytes().to_vec();
    assert!(precommit_hook_job(Some(text.clone())).is_noop(Some(0o755)));
    assert!(!precommit_hook_job(Some(text)).is_noop(Some(0o644)));
}

#[test]
fn the_hook_needs_cargo_husky() {
    assert!(husky_available(&Ok(output(Some(0), ""))).is_ok());
    assert_eq!(
        husky_available(&Ok(output(Some(101), ""))),
        Err(vec![
            "cargo-husky is not a dev dependency or cargo tree failed".to_string(),
            "To add cargo-husky as a dev dependency, run:".to_string(),
            "  cargo add cargo-husky --dev --no-default-features -F user-hooks".to_string(),
        ])
    );
    assert_eq!(
        husky_command(),
        ["cargo", "tree", "-e", "dev", "-i", "cargo-husky"]
    );
    assert_eq!(
        husky_available(&Err("not found".to_string())),
        Err(vec!["Failed to run cargo tree command: not found".to_string()])
    );
}

#[test]
fn staged_rust_sources_are_formatted() {
    let staged = StagedFiles {
        clean: vec![b"src/main.rs".to_vec(), b"README.md".to_vec(), b"build.rs".to_vec()],
    };
    let none = parse_metadata(b"{}").unwrap();
    let found = rustfmt_targets(&staged, &Vec::new(), b"/w", &none);
    let paths: Vec<&[u8]> = found.iter().map(|s| s.path.as_slice()).collect();
    assert_eq!(paths, [b"src/main.rs".as_slice(), b"build.rs"]);
    assert!(found.iter().all(|s| s.edition == "2024"));
    assert_eq!(rustfmt_command("2021"), ["rustfmt", "--edition", "2021", "--emit", "stdout"]);
}

#[test]
fn listed_sources_are_formatted_in_the_edition_of_their_package() {
    let text = r#"{"packages": [
        {"manifest_path": "/w/Cargo.toml", "edition": "2018"},
        {"manifest_path": "/w/a/Cargo.toml", "edition": "2021"},
        {"manifest_path": "/w/b/Cargo.toml"}
    ]}"#;
    let metadata = parse_metadata(text.as_bytes()).unwrap();
    let staged = StagedFiles { clean: vec![b"a/src/lib.rs".to_vec()] };
    let listed = output(
        Some(1),
        "/w/a/src/lib.rs\n/w/src/lib.rs\n/w/b/x.rs\n/w/src/lib.rs\n/v/y.rs\nnote\n",
    );
    let listing = fmt_listing(&Ok(listed));
    assert_eq!(listing.complaint, None);
    let found = rustfmt_targets(&staged, &listing.files, b"/w", &metadata);
    let found: Vec<(String, &str)> = found
        .iter()
        .map(|s| (String::from_utf8_lossy(&s.path).into_owned(), s.edition.as_str()))
        .collect();
    assert_eq!(
        found,
        [
            ("a/src/lib.rs".to_string(), "2021"),
            ("/w/src/lib.rs".to_string(), "2018"),
            ("/w/b/x.rs".to_string(), "2024"),
        ]
    );
}

#[test]
fn failures_to_list_sources_are_told() {
    assert_eq!(fmt_command(), ["cargo", "fmt", "--all", "--", "--check", "-l"]);
    let listing = fmt_listing(&Err("not found".to_string()));
    assert!(listing.files.is_empty());
    assert_eq!(listing.complaint.as_deref(), Some("Failed to run cargo fmt: not found"));
    let mut bad = output(Some(1), "/w/a.rs\n");
    bad.stderr = b"error: \xff".to_vec();
    let listing = fmt_listing(&Ok(bad));
    assert_eq!(listing.files, [b"/w/a.rs".to_vec()]);
    assert_eq!(listing.complaint.as_deref(), Some("cargo fmt failed: error: \u{fffd}"));
}

#[test]
fn written_files_are_staged() {
    assert_eq!(
        job("a b", None, "x", false).stage_command(),
        [b"git".to_vec(), b"add".to_vec(), b"a b".to_vec()]
    );
}

#[test]
fn a_formatted_source_is_written_if_formatting_succeeded() {
    let found =
        rustfmt_job(b"a.rs".to_vec(), b"fn  a(){}".to_vec(), output(Some(0), "fn a() {}\n")).unwrap();
    assert_eq!(found.path, b"a.rs");
    assert_eq!(found.old_content, Some(b"fn  a(){}".to_vec()));
    assert_eq!(found.new_content, b"fn a() {}\n");
    assert!(!found.executable);
    let mut bad = output(Some(1), "fn");
    bad.stderr = b"error: \xff".to_vec();
    let failure = rustfmt_job(b"a.rs".to_vec(), Vec::new(), bad).unwrap_err();
    assert_eq!(failure.stderr, "error: \u{fffd}");
    assert_eq!(failure.stdout, "fn");
    assert!(rustfmt_job(b"a.rs".to_vec(), Vec::new(), output(None, "")).is_err());
}
