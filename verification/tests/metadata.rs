use facet_dev::command::CommandOutput;
use facet_dev::metadata::{
    declared_workspace_name, exit_message, metadata_from_run, msrv_is_consistent, package_lines,
    edition_for, manifest_path, metadata_command, metadata_command_for, package_name_at,
    package_name_by_id, parse_metadata, workspace_crates, workspace_name, workspace_name_from_metadata, Metadata,
    MetadataError, Package,
};

fn some(text: &str) -> Option<String> {
    Some(text.to_string())
}

fn package(id: Option<&str>, name: Option<&str>, manifest: Option<&str>) -> Package {
    Package {
        id: id.map(|t| t.to_string()),
        name: name.map(|t| t.to_string()),
        manifest_path: manifest.map(|t| t.to_string()),
        rust_version: None,
        edition: None,
    }
}

fn metadata(root: Option<&str>, members: &[&str], packages: Vec<Package>) -> Metadata {
    Metadata {
        root: root.map(|t| t.to_string()),
        default_members: members.iter().map(|m| m.to_string()).collect(),
        packages,
    }
}

fn two_packages() -> Vec<Package> {
    vec![
        package(Some("i1"), Some("one"), Some("/w/one/Cargo.toml")),
        package(Some("i2"), Some("two"), Some("/w/two/Cargo.toml")),
    ]
}

const TEXT: &str = r#"{
    "packages": [
        {"id": "i1", "name": "one", "manifest_path": "/w/one/Cargo.toml", "rust_version": "1.85"},
        {"id": 7, "name": null, "rust_version": null},
        "no package"
    ],
    "workspace_default_members": ["i2", 3, "i1"],
    "resolve": {"root": "i1"}
}"#;

#[test]
fn metadata_are_read_from_json() {
    let read = parse_metadata(TEXT.as_bytes()).unwrap();
    assert_eq!(read.root, some("i1"));
    assert_eq!(read.default_members, ["i2", "i1"]);
    assert_eq!(read.packages.len(), 3);
    assert_eq!(read.packages[0].id, some("i1"));
    assert_eq!(read.packages[0].name, some("one"));
    assert_eq!(read.packages[0].manifest_path, some("/w/one/Cargo.toml"));
    assert_eq!(read.packages[0].rust_version, some("1.85"));
    for package in &read.packages[1..] {
        assert_eq!(package.id, None);
        assert_eq!(package.name, None);
        assert_eq!(package.manifest_path, None);
        assert_eq!(package.rust_version, None);
    }
}

#[test]
fn what_is_missing_from_json_is_missing() {
    for text in ["{}", "[]", "null", r#"{"packages": {}, "resolve": null}"#] {
        let read = parse_metadata(text.as_bytes()).unwrap();
        assert_eq!(read.root, None);
        assert!(read.default_members.is_empty());
        assert!(read.packages.is_empty());
    }
}

#[test]
fn what_is_no_json_is_an_error() {
    let error = parse_metadata(b"{\"packages\": ").unwrap_err();
    let expected = serde_json::from_slice::<serde_json::Value>(b"{\"packages\": ").unwrap_err();
    assert_eq!(
        error.message(),
        format!("Failed to parse cargo metadata output: {expected}")
    );
    assert!(matches!(error, MetadataError::Unparsable(_)));
}

#[test]
fn a_run_gives_metadata_or_an_error() {
    let output = |code, stdout: &[u8]| CommandOutput {
        code,
        status: "exit status: 101".to_string(),
        stdout: stdout.to_vec(),
        stderr: b" error: no manifest\n".to_vec(),
    };
    let read = metadata_from_run(Ok(output(Some(0), TEXT.as_bytes()))).unwrap();
    assert_eq!(read.root, some("i1"));
    let error = metadata_from_run(Ok(output(Some(101), TEXT.as_bytes()))).unwrap_err();
    assert_eq!(
        error.message(),
        "cargo metadata exited with exit status: 101: error: no manifest"
    );
    let error = metadata_from_run(Ok(output(None, b""))).unwrap_err();
    assert!(matches!(error, MetadataError::Failed { .. }));
    let error = metadata_from_run(Err("not found".to_string())).unwrap_err();
    assert_eq!(error.message(), "Failed to run cargo metadata: not found");
    let error = metadata_from_run(Ok(output(Some(0), b"x"))).unwrap_err();
    assert!(matches!(error, MetadataError::Unparsable(_)));
}

#[test]
fn errors_have_messages() {
    assert_eq!(
        MetadataError::ManifestMissing.message(),
        "Workspace manifest Cargo.toml not found"
    );
    assert_eq!(
        MetadataError::NotCanonical("gone".to_string()).message(),
        "Failed to canonicalize workspace manifest: gone"
    );
    assert_eq!(
        MetadataError::NoMatch.message(),
        "Unable to match workspace manifest to any package"
    );
    let failed = MetadataError::Failed { status: "s".to_string(), stderr: vec![b'a', 0xff] };
    assert_eq!(failed.message(), "cargo metadata exited with s: a\u{fffd}");
    assert_eq!(exit_message("s", "\n t \n"), "cargo metadata exited with s: t");
}

#[test]
fn packages_are_found_by_id() {
    let all = metadata(None, &[], two_packages());
    assert_eq!(package_name_by_id(&all, "i1"), Some("one"));
    assert_eq!(package_name_by_id(&all, "i2"), Some("two"));
    assert_eq!(package_name_by_id(&all, "i3"), None);
}

#[test]
fn the_search_by_id_ends_at_a_package_without_one() {
    let mut packages = two_packages();
    packages.insert(1, package(None, Some("none"), None));
    let all = metadata(None, &[], packages);
    assert_eq!(package_name_by_id(&all, "i1"), Some("one"));
    assert_eq!(package_name_by_id(&all, "i2"), None);
}

#[test]
fn the_first_package_with_an_id_counts() {
    let packages = vec![
        package(Some("i"), None, None),
        package(Some("i"), Some("later"), None),
    ];
    assert_eq!(package_name_by_id(&metadata(None, &[], packages), "i"), None);
}

#[test]
fn the_root_package_names_the_workspace() {
    let all = metadata(Some("i2"), &["i1"], two_packages());
    assert_eq!(declared_workspace_name(&all), some("two"));
}

#[test]
fn default_members_name_a_workspace_without_root() {
    let all = metadata(Some("i9"), &["i8", "i2", "i1"], two_packages());
    assert_eq!(declared_workspace_name(&all), some("two"));
    let all = metadata(None, &["i1"], two_packages());
    assert_eq!(declared_workspace_name(&all), some("one"));
    assert_eq!(declared_workspace_name(&metadata(None, &[], two_packages())), None);
}

#[test]
fn the_manifest_names_a_workspace_without_others() {
    let all = metadata(None, &[], two_packages());
    let canonical = vec![None, Some(b"/w/two/Cargo.toml".to_vec())];
    let manifest = || Ok(b"/w/two//Cargo.toml".to_vec());
    assert_eq!(
        workspace_name_from_metadata(&all, manifest(), &canonical).unwrap(),
        "two"
    );
    let canonical = vec![None, None];
    let error = workspace_name_from_metadata(&all, manifest(), &canonical).unwrap_err();
    assert!(matches!(error, MetadataError::NoMatch));
    let gone = Err("gone".to_string());
    let error = workspace_name_from_metadata(&all, gone, &canonical).unwrap_err();
    assert!(matches!(error, MetadataError::NotCanonical(reason) if reason == "gone"));
    let all = metadata(Some("i1"), &[], two_packages());
    let gone = Err("gone".to_string());
    assert_eq!(workspace_name_from_metadata(&all, gone, &canonical).unwrap(), "one");
}

#[test]
fn a_package_without_name_or_manifest_names_nothing() {
    let packages = vec![
        package(Some("i1"), None, Some("/w/Cargo.toml")),
        package(Some("i2"), Some("two"), None),
        package(Some("i3"), Some("three"), Some("/w/Cargo.toml")),
    ];
    let all = metadata(None, &[], packages);
    let here = || Some(b"/w/Cargo.toml".to_vec());
    let canonical = vec![here(), here(), here()];
    assert_eq!(
        workspace_name_from_metadata(&all, Ok(here().unwrap()), &canonical).unwrap(),
        "three"
    );
}

#[test]
fn a_workspace_without_a_told_name_is_named_by_its_directory() {
    assert_eq!(workspace_name(some("a"), b"/w/b"), "a");
    assert_eq!(workspace_name(None, b"/w/b"), "b");
    assert_eq!(workspace_name(None, b"/"), "facet");
    assert_eq!(workspace_name(None, b"/w/\xff"), "facet");
}

#[test]
fn rust_versions_are_compared() {
    let mut packages = two_packages();
    assert!(msrv_is_consistent(&metadata(None, &[], two_packages())));
    packages[0].rust_version = some("1.85");
    assert!(!msrv_is_consistent(&metadata(None, &[], packages)));
    let mut packages = two_packages();
    packages[0].rust_version = some("1.85");
    packages[1].rust_version = some("1.85");
    assert!(msrv_is_consistent(&metadata(None, &[], packages)));
    let mut packages = two_packages();
    packages[0].rust_version = some("1.85");
    packages[1].rust_version = some("1.86");
    assert!(!msrv_is_consistent(&metadata(None, &[], packages)));
    assert!(msrv_is_consistent(&metadata(None, &[], Vec::new())));
}

#[test]
fn packages_are_described() {
    let mut packages = two_packages();
    packages[0].rust_version = some("1.85");
    packages[1].manifest_path = None;
    assert_eq!(
        package_lines(&metadata(None, &[], packages)),
        ["one (Rust 1.85) /w/one/Cargo.toml", "two (Rust unknown) unknown"]
    );
}

#[test]
fn cargo_is_asked_for_metadata() {
    assert_eq!(metadata_command(), ["cargo", "metadata", "--format-version", "1", "--no-deps"]);
    assert_eq!(manifest_path(b"/w"), b"/w/Cargo.toml");
    let words: Vec<String> = metadata_command_for(b"/w/Cargo.toml")
        .into_iter()
        .map(|w| String::from_utf8(w).unwrap())
        .collect();
    assert_eq!(
        words.join(" "),
        "cargo metadata --format-version 1 --no-deps --manifest-path /w/Cargo.toml"
    );
}

#[test]
fn the_crates_of_a_workspace_are_its_packages() {
    let mut packages = two_packages();
    packages.push(package(None, None, None));
    packages.push(package(None, Some("a"), None));
    packages.push(package(None, Some("two"), None));
    assert_eq!(workspace_crates(&metadata(None, &[], packages)), ["a", "one", "two"]);
}

#[test]
fn the_deepest_package_tells_the_edition() {
    let mut outer = package(None, None, Some("/w/Cargo.toml"));
    outer.edition = some("2018");
    let mut inner = package(None, None, Some("/w/a/Cargo.toml"));
    inner.edition = some("2021");
    let all = metadata(None, &[], vec![inner, outer, package(None, None, None)]);
    assert_eq!(edition_for(&all, b"/w/a/src/lib.rs"), "2021");
    assert_eq!(edition_for(&all, b"/w/ab/src/lib.rs"), "2018");
    assert_eq!(edition_for(&all, b"/v/lib.rs"), "2024");
}

#[test]
fn packages_are_found_by_their_directory() {
    let packages = vec![
        package(None, None, Some("/w/a/Cargo.toml")),
        package(None, Some("b"), None),
        package(None, Some("one"), Some("/w/a/Cargo.toml")),
        package(None, Some("two"), Some("/w/Cargo.toml")),
    ];
    let all = metadata(None, &[], packages);
    assert_eq!(package_name_at(&all, b"/w//a/"), some("one"));
    assert_eq!(package_name_at(&all, b"/w"), some("two"));
    assert_eq!(package_name_at(&all, b"/w/b"), None);
    assert_eq!(package_name_at(&Metadata::empty(), b"/w"), None);
}
