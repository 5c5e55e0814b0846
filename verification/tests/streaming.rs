use facet_dev::streaming::StreamedRun;

fn words(parts: &[&str]) -> Vec<String> {
    parts.iter().map(|p| p.to_string()).collect()
}

#[test]
fn a_fast_command_shows_nothing() {
    let mut run = StreamedRun::new();
    let asked = run.poll(100, 100, words(&["a"]), words(&[]));
    assert!(!asked.announce && !asked.show_elapsed && !asked.pause);
    assert!(run.stdout_lines()[asked.stdout_from..].is_empty());
    let asked = run.poll(4999, 4999, words(&[]), words(&["e"]));
    assert!(!asked.announce && !asked.show_elapsed && !asked.pause);
    assert!(run.stderr_lines()[asked.stderr_from..].is_empty());
    let end = run.finish(words(&["b"]), words(&[]));
    assert!(end.stdout_lines.is_empty() && end.stderr_lines.is_empty() && !end.empty_line);
    assert_eq!(end.stdout, b"a\nb");
    assert_eq!(end.stderr, b"e");
}

#[test]
fn a_slow_command_shows_every_line_once() {
    let mut run = StreamedRun::new();
    run.poll(100, 100, words(&["a"]), words(&["e"]));
    let asked = run.poll(5000, 5000, words(&["b"]), words(&[]));
    assert!(asked.announce && asked.show_elapsed);
    assert_eq!(run.stdout_lines()[asked.stdout_from..asked.stdout_new], words(&["a"]));
    assert_eq!(run.stderr_lines()[asked.stderr_from..asked.stderr_new], words(&["e"]));
    assert_eq!(run.stdout_lines()[asked.stdout_new..], words(&["b"]));
    assert!(run.stderr_lines()[asked.stderr_new..].is_empty());
    let asked = run.poll(5100, 100, words(&["c"]), words(&["f"]));
    assert!(!asked.announce && !asked.show_elapsed && !asked.pause);
    assert_eq!(asked.stdout_from, asked.stdout_new);
    assert_eq!(asked.stderr_from, asked.stderr_new);
    assert_eq!(run.stdout_lines()[asked.stdout_new..], words(&["c"]));
    assert_eq!(run.stderr_lines()[asked.stderr_new..], words(&["f"]));
    let end = run.finish(words(&["d"]), words(&[]));
    assert_eq!(end.stdout_lines, words(&["d"]));
    assert!(end.stderr_lines.is_empty());
    assert!(end.empty_line);
    assert_eq!(end.stdout, b"a\nb\nc\nd");
    assert_eq!(end.stderr, b"e\nf");
}

#[test]
fn a_silent_command_is_waited_for() {
    let mut run = StreamedRun::new();
    assert!(run.poll(0, 0, Vec::new(), Vec::new()).pause);
    assert!(run.poll(6000, 999, Vec::new(), Vec::new()).pause);
    let asked = run.poll(7000, 1000, Vec::new(), Vec::new());
    assert!(asked.pause && asked.show_elapsed && !asked.announce);
    let end = run.finish(Vec::new(), Vec::new());
    assert!(end.stdout.is_empty() && end.stderr.is_empty());
}
