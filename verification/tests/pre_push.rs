use facet_dev::checks::{judge, plan, CheckKind, PrePush, Verdict};
use facet_dev::command::CommandOutput;
use facet_dev::pre_push::{
    affected_crates, assess, changed_files, commit_range, listed_files, listing_command,
    manifest_candidates, merge_base, merge_base_command, package_name, Finding, Listing,
};

fn words(parts: &[&str]) -> Vec<String> {
    parts.iter().map(|p| p.to_string()).collect()
}

fn output(code: Option<i32>, stdout: &str, stderr: &str) -> Result<CommandOutput, String> {
    Ok(CommandOutput {
        code,
        status: "status".to_string(),
        stdout: stdout.as_bytes().to_vec(),
        stderr: stderr.as_bytes().to_vec(),
    })
}

#[test]
fn the_merge_base_is_trimmed() {
    assert_eq!(merge_base(&output(Some(0), "abc123\n", "")), "abc123");
    assert_eq!(merge_base(&output(Some(1), "abc123\n", "")), "HEAD");
    assert_eq!(merge_base(&output(None, "abc123\n", "")), "HEAD");
    assert_eq!(merge_base(&Err("no git".to_string())), "HEAD");
    assert_eq!(commit_range("abc123"), "abc123...HEAD");
}

#[test]
fn git_is_asked_for_changes() {
    assert_eq!(merge_base_command(), words(&["git", "merge-base", "HEAD", "origin/main"]));
    assert_eq!(
        listing_command(Listing::Changed, "abc"),
        words(&["git", "diff", "--name-only", "abc...HEAD"])
    );
    assert_eq!(
        listing_command(Listing::Staged, "abc"),
        words(&["git", "diff", "--name-only", "--cached"])
    );
}

#[test]
fn listings_give_files_or_what_is_wrong() {
    let run = output(Some(0), "a.rs\nb.rs\n", "");
    assert_eq!(listed_files(Listing::Changed, &run), Ok(words(&["a.rs", "b.rs"])));
    let run = output(Some(128), "a.rs\n", "bad revision");
    assert_eq!(
        listed_files(Listing::Changed, &run),
        Err("git diff failed: bad revision".to_string())
    );
    assert_eq!(
        listed_files(Listing::Staged, &run),
        Err("git diff --cached failed: bad revision".to_string())
    );
    let run = Err("no git".to_string());
    assert_eq!(
        listed_files(Listing::Changed, &run),
        Err("Failed to get changed files: no git".to_string())
    );
    assert_eq!(
        listed_files(Listing::Staged, &run),
        Err("Failed to get staged files: no git".to_string())
    );
}

#[test]
fn changed_files_are_sorted_and_each_once() {
    let (a, b) = (words(&["b.rs", "a.rs"]), words(&["c.rs", "a.rs"]));
    assert_eq!(changed_files(a.clone(), b.clone()), words(&["a.rs", "b.rs", "c.rs"]));
    assert_eq!(changed_files(b, a), words(&["a.rs", "b.rs", "c.rs"]));
}

#[test]
fn manifests_are_looked_for_from_the_inside_out() {
    let found: Vec<String> = manifest_candidates("facet/src/impls/core.rs")
        .into_iter()
        .map(|p| String::from_utf8(p).unwrap())
        .collect();
    assert_eq!(
        found,
        ["facet/src/impls/Cargo.toml", "facet/src/Cargo.toml", "facet/Cargo.toml", "Cargo.toml"]
    );
    assert_eq!(manifest_candidates("README.md"), [b"Cargo.toml".to_vec()]);
    assert_eq!(manifest_candidates("/a"), [b"/Cargo.toml".to_vec()]);
    assert!(manifest_candidates("").is_empty());
    assert_eq!(
        manifest_candidates("\"\\303\\251/a\\tb.rs\""),
        ["é/Cargo.toml".as_bytes().to_vec(), b"Cargo.toml".to_vec()]
    );
}

#[test]
fn a_package_is_named_in_its_section() {
    let text = "[workspace]\nname = \"no\"\n\n[package]\nversion = \"1\"\nname = \"facet-core\"\n";
    assert_eq!(package_name(text), Some("facet-core".to_string()));
    assert_eq!(package_name("  [package]  \n  name='a'  "), Some("a".to_string()));
    assert_eq!(package_name("[package]\r\nname=\"a\"\r\n"), Some("a".to_string()));
    assert_eq!(package_name("[package]\nname = \"a\" # c\n"), Some("a".to_string()));
    assert_eq!(package_name("[package]\nname = 'a' # 'c'\n"), Some("a".to_string()));
    assert_eq!(package_name("[package]\nname = a # c\n"), Some("a".to_string()));
    assert_eq!(package_name("[package] # c\nname = \"a\"\n"), Some("a".to_string()));
    assert_eq!(package_name("[package]\n#name = \"b\"\nname = \"a\""), Some("a".to_string()));
    assert_eq!(package_name("[package]\nnamed = \"b\"\nname = \"a\""), Some("a".to_string()));
    assert_eq!(package_name("[package]\nname =\n"), Some("".to_string()));
}

#[test]
fn other_sections_name_no_package() {
    assert_eq!(package_name(""), None);
    assert_eq!(package_name("name = \"a\"\n"), None);
    assert_eq!(package_name("[workspace]\nmembers = []\n"), None);
    assert_eq!(package_name("[package]\n[lib]\nname = \"a\"\n"), None);
    assert_eq!(package_name("[package]\nname\n"), None);
    assert_eq!(package_name("# [package]\nname = \"a\"\n"), None);
    assert_eq!(package_name("[package]\nnamed = \"a\"\n"), None);
}

#[test]
fn affected_crates_are_sorted_and_each_once() {
    let manifest = |name: &str| Some(format!("[package]\nname = \"{name}\"\n"));
    let manifests =
        vec![manifest("b"), None, manifest("a"), Some("[workspace]\n".to_string()), manifest("b")];
    assert_eq!(affected_crates(&manifests), words(&["a", "b"]));
    let changed = words(&["x"]);
    assert!(matches!(assess(&Vec::new(), &manifests), Finding::NoChanges));
    assert!(matches!(assess(&changed, &vec![None]), Finding::NoCrates));
    match assess(&changed, &manifests) {
        Finding::Crates(crates) => assert_eq!(crates, words(&["a", "b"])),
        other => panic!("{:?}", other),
    }
}

#[test]
fn every_crate_is_checked_and_affected_ones_are_tested() {
    let checks = plan(&words(&["a", "b"]), &words(&["b", "c"]));
    let kinds: Vec<CheckKind> = checks.iter().map(|c| c.kind).collect();
    assert_eq!(
        kinds,
        [
            CheckKind::Clippy,
            CheckKind::Clippy,
            CheckKind::Test,
            CheckKind::DocTest,
            CheckKind::Doc,
            CheckKind::Doc,
            CheckKind::Msrv,
        ]
    );
    assert_eq!(
        checks[1].command.join(" "),
        "cargo clippy -p b --all-targets --all-features -- -D warnings"
    );
    assert_eq!(checks[1].subject.as_deref(), Some("b"));
    assert_eq!(checks[2].command.join(" "), "cargo test -p b -p c --all-features");
    assert_eq!(checks[3].command.join(" "), "cargo test --doc -p b -p c --all-features");
    assert_eq!(checks[4].command.join(" "), "cargo doc -p a --all-features");
    assert_eq!(
        checks[4].envs,
        [("RUSTDOCFLAGS".to_string(), "-D warnings".to_string())]
    );
    let streamed: Vec<bool> = checks.iter().map(|c| c.is_streamed()).collect();
    assert_eq!(streamed, [false, false, true, true, false, false, false]);
    assert!(checks[0].envs.is_empty() && checks[2].envs.is_empty());
    assert_eq!(checks[6].command.join(" "), "cargo metadata --format-version 1 --no-deps");
}

#[test]
fn checks_are_judged_by_how_they_end() {
    let checks = plan(&words(&["a"]), &words(&["a"]));
    let nothing = "error: there is nothing to test";
    assert!(matches!(judge(&checks[0], &output(Some(0), "", "")), Verdict::Passed));
    assert!(matches!(judge(&checks[2], &output(Some(101), "", nothing)), Verdict::LeftOut));
    assert!(matches!(judge(&checks[1], &output(Some(101), "", nothing)), Verdict::Failed(_)));
    match judge(&checks[3], &output(None, "", "warning\n")) {
        Verdict::Failed(lines) => assert_eq!(
            lines,
            [
                "    command: cargo doc -p a --all-features",
                "    env: RUSTDOCFLAGS=-D warnings",
                "    exit code: terminated by signal",
                "    stdout: <empty>",
                "    stderr:\nwarning",
            ]
        ),
        other => panic!("{:?}", other),
    }
    match judge(&checks[1], &Err("not found".to_string())) {
        Verdict::Failed(lines) => {
            assert_eq!(lines.last().map(String::as_str), Some("    error: not found"))
        }
        other => panic!("{:?}", other),
    }
}

#[test]
fn rust_versions_are_checked() {
    let checks = plan(&words(&["a"]), &words(&["a"]));
    let check = &checks[4];
    assert_eq!(check.kind, CheckKind::Msrv);
    let same = r#"{"packages": [{"rust_version": "1.85"}, {"rust_version": "1.85"}]}"#;
    assert!(matches!(judge(check, &output(Some(0), same, "")), Verdict::Passed));
    let mixed = r#"{"packages": [{"name": "a", "rust_version": "1.85"}, {"name": "b"}]}"#;
    match judge(check, &output(Some(0), mixed, "")) {
        Verdict::Failed(lines) => {
            assert_eq!(lines, ["a (Rust 1.85) unknown", "b (Rust unknown) unknown"])
        }
        other => panic!("{:?}", other),
    }
    assert!(matches!(judge(check, &output(Some(0), "x", "")), Verdict::Failed(_)));
    assert!(matches!(judge(check, &output(Some(1), same, "")), Verdict::Failed(_)));
}

#[test]
fn a_session_ends_well_if_no_check_fails() {
    let mut session = PrePush::new(&words(&["a"]), &words(&["a"]));
    let mut ran = 0;
    while let Some(check) = session.next() {
        let run = if check.kind == CheckKind::DocTest {
            output(Some(101), "", "no library targets found")
        } else {
            output(Some(0), "{}", "")
        };
        assert_eq!(session.exit_code(), None);
        assert!(!matches!(session.record(&run), Verdict::Failed(_)));
        ran += 1;
    }
    assert_eq!(ran, 5);
    assert_eq!(session.exit_code(), Some(0));
}

#[test]
fn a_session_ends_at_the_first_failure() {
    let mut session = PrePush::new(&words(&["a", "b"]), &words(&["a"]));
    assert!(matches!(session.record(&output(Some(0), "", "")), Verdict::Passed));
    assert!(matches!(session.record(&output(Some(101), "", "")), Verdict::Failed(_)));
    assert!(session.next().is_none());
    assert_eq!(session.exit_code(), Some(1));
}
