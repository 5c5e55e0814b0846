use facet_dev::command::{
    command_error_report, command_failure_report, env_report, exit_code_report,
    format_command_line, label_text, needs_no_quotes, says_nothing_to_test, shell_escape,
    should_skip_doc_tests, stream_report, CommandOutput,
};

fn words(parts: &[&str]) -> Vec<String> {
    parts.iter().map(|p| p.to_string()).collect()
}

fn output(code: Option<i32>, stdout: &[u8], stderr: &[u8]) -> CommandOutput {
    CommandOutput {
        code,
        status: "status".to_string(),
        stdout: stdout.to_vec(),
        stderr: stderr.to_vec(),
    }
}

#[test]
fn plain_parts_are_shown_as_they_stand() {
    for part in ["cargo", "--no-tests=pass", "", "é", "$HOME"] {
        assert!(needs_no_quotes(part));
        assert_eq!(shell_escape(part), part);
    }
}

#[test]
fn other_parts_are_quoted() {
    assert_eq!(shell_escape("-D warnings"), "\"-D warnings\"");
    assert_eq!(shell_escape("a\"b"), "\"a\\\"b\"");
    assert_eq!(shell_escape("a\\b"), "\"a\\\\b\"");
    assert_eq!(shell_escape("it's"), "\"it's\"");
    assert_eq!(shell_escape("a\u{a0}b"), format!("{:?}", "a\u{a0}b"));
    assert!(!needs_no_quotes("a\tb"));
}

#[test]
fn quoted_parts_are_string_literals() {
    for c in '\0'..=char::MAX {
        if !c.is_whitespace() && !['"', '\'', '\\'].contains(&c) {
            continue;
        }
        let shown = shell_escape(&format!("a{c}b"));
        assert!(shown.starts_with("\"a") && shown.ends_with("b\""), "{shown}");
        assert!(shown.chars().all(|s| s == ' ' || !s.is_whitespace()), "{shown}");
    }
    assert_eq!(shell_escape("\t\r\n\0 \u{3000}"), "\"\\t\\r\\n\\0 \\u{3000}\"");
    assert_eq!(shell_escape("\u{301} \u{7f}"), "\"\\u{301} \\u{7f}\"");
    assert_eq!(shell_escape("\\\""), "\"\\\\\\\"\"");
}

#[test]
fn different_parts_are_shown_differently() {
    let mut parts = vec![String::new()];
    for _ in 0..3 {
        for part in parts.clone() {
            for c in ['a', ' ', '\n', 'n', '"', '\'', '\\', '\u{a0}', '{'] {
                parts.push(format!("{part}{c}"));
            }
        }
    }
    parts.sort();
    parts.dedup();
    let mut shown: Vec<String> = parts.iter().map(|p| shell_escape(p)).collect();
    shown.sort();
    shown.dedup();
    assert_eq!(shown.len(), parts.len());
}

#[test]
fn command_lines_are_joined_by_spaces() {
    assert_eq!(format_command_line(&words(&["cargo", "doc", "a b"])), "cargo doc \"a b\"");
    assert_eq!(format_command_line(&[]), "");
}

#[test]
fn streams_are_labelled() {
    assert_eq!(stream_report("stdout", b""), "    stdout: <empty>");
    assert_eq!(stream_report("stderr", b"  one\ntwo \n\n"), "    stderr:\n  one\ntwo");
    assert_eq!(stream_report("stderr", b"\n"), "    stderr:\n");
    assert_eq!(stream_report("stdout", b"a\xffb"), "    stdout:\na\u{fffd}b");
    assert_eq!(label_text("x", "y "), "    x:\ny");
}

#[test]
fn exit_codes_are_reported() {
    assert_eq!(exit_code_report(Some(101)), "    exit code: 101");
    assert_eq!(exit_code_report(Some(-1)), "    exit code: -1");
    assert_eq!(exit_code_report(Some(i32::MIN)), "    exit code: -2147483648");
    assert_eq!(exit_code_report(None), "    exit code: terminated by signal");
}

#[test]
fn failures_are_reported_in_full() {
    let envs = vec![("RUSTDOCFLAGS".to_string(), "-D warnings".to_string())];
    assert_eq!(env_report(&envs), ["    env: RUSTDOCFLAGS=-D warnings"]);
    assert_eq!(
        command_failure_report(
            &words(&["cargo", "doc"]),
            &envs,
            &output(Some(1), b"", b"error\n")
        ),
        [
            "    command: cargo doc",
            "    env: RUSTDOCFLAGS=-D warnings",
            "    exit code: 1",
            "    stdout: <empty>",
            "    stderr:\nerror",
        ]
    );
}

#[test]
fn errors_are_reported() {
    assert_eq!(
        command_error_report(&words(&["cargo", "a b"]), &[], "not found"),
        ["    command: cargo \"a b\"", "    error: not found"]
    );
}

#[test]
fn doc_tests_are_skipped_only_for_want_of_any() {
    for said in [
        "error: there is nothing to test",
        "found no library targets to test",
        "x found no binaries to test y",
        "no library targets found in package `a`",
    ] {
        assert!(says_nothing_to_test(said));
        assert!(should_skip_doc_tests(&output(Some(101), b"", said.as_bytes())));
        assert!(!should_skip_doc_tests(&output(Some(1), b"", said.as_bytes())));
        assert!(!should_skip_doc_tests(&output(Some(101), said.as_bytes(), b"")));
        assert!(!should_skip_doc_tests(&output(None, b"", said.as_bytes())));
    }
    assert!(!should_skip_doc_tests(&output(Some(101), b"", b"error: test failed")));
    assert!(!says_nothing_to_test(""));
}

#[test]
fn only_the_code_zero_is_success() {
    assert!(output(Some(0), b"", b"").success());
    assert!(!output(Some(1), b"", b"").success());
    assert!(!output(None, b"", b"").success());
}
