use facet_dev::cli::{level_for_word, log_level, parse_arguments, Action, Level};

fn parsed(parts: &[&str]) -> Action {
    let args: Vec<String> = parts.iter().map(|p| p.to_string()).collect();
    parse_arguments(&args)
}

#[test]
fn arguments_tell_what_to_do() {
    assert!(matches!(parsed(&["facet-dev", "pre-push"]), Action::PrePush));
    assert!(matches!(parsed(&["facet-dev", "debug-packages"]), Action::DebugPackages));
    assert!(matches!(parsed(&["facet-dev"]), Action::Generate { template_dir: None }));
    assert!(matches!(parsed(&[]), Action::Generate { template_dir: None }));
    assert!(matches!(parsed(&["facet-dev", "other"]), Action::Generate { template_dir: None }));
    assert!(matches!(
        parsed(&["facet-dev", "other", "pre-push"]),
        Action::Generate { template_dir: None }
    ));
    match parsed(&["facet-dev", "--template-dir", "/path/to/templates"]) {
        Action::Generate { template_dir } => {
            assert_eq!(template_dir.as_deref(), Some("/path/to/templates"))
        }
        other => panic!("{:?}", other),
    }
    assert!(matches!(
        parsed(&["facet-dev", "--template-dir"]),
        Action::Generate { template_dir: None }
    ));
}

#[test]
fn levels_are_read_in_any_case() {
    assert_eq!(log_level(None), Level::Info);
    assert_eq!(log_level(Some("TRACE")), Level::Trace);
    assert_eq!(log_level(Some("Debug")), Level::Debug);
    assert_eq!(log_level(Some("info")), Level::Info);
    assert_eq!(log_level(Some("wArN")), Level::Warn);
    assert_eq!(log_level(Some("error")), Level::Error);
    assert_eq!(log_level(Some("errors")), Level::Info);
    assert_eq!(level_for_word("ERROR"), None);
    assert_eq!(level_for_word("warn"), Some(Level::Warn));
}
