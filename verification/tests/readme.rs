use facet_dev::metadata::{parse_metadata, Metadata};
use facet_dev::readme::{
    footer_path, generate, header_path, is_crate_directory, package_directories, readme_job,
    readme_path, readme_targets, Entry, GenerateReadmeOpts,
};
use facet_dev::templates::{DEFAULT_FOOTER, DEFAULT_HEADER};

fn opts(name: &str, input: &str, header: Option<&str>, footer: Option<&str>) -> GenerateReadmeOpts {
    GenerateReadmeOpts {
        crate_name: name.to_string(),
        input: input.to_string(),
        header: header.map(|h| h.to_string()),
        footer: footer.map(|f| f.to_string()),
    }
}

fn entry(path: &str, is_dir: bool, has_manifest: bool) -> Entry {
    Entry { path: path.as_bytes().to_vec(), is_dir, has_manifest, manifest: None }
}

#[test]
fn a_readme_has_header_content_and_footer() {
    let header = "# {CRATE}\n\n[![CI](https://github.com/your-org/{CRATE}/ci.yml)]";
    let readme = generate(opts("facet", "Hello.", Some(header), Some("## License\n")));
    assert_eq!(
        readme,
        "# facet\n\n[![CI](https://github.com/your-org/facet/ci.yml)]\nHello.\n## License\n"
    );
}

#[test]
fn only_the_header_has_placeholders() {
    let readme = generate(opts("x", "{CRATE}", Some("{CRATE}{CRATE} {crate} {CRATE"), Some("{CRATE}")));
    assert_eq!(readme, "xx {crate} {CRATE\n{CRATE}\n{CRATE}");
}

#[test]
fn a_header_without_placeholder_is_kept() {
    assert_eq!(generate(opts("x", "b", Some("a"), Some("c"))), "a\nb\nc");
    assert_eq!(generate(opts("x", "", Some(""), Some(""))), "\n\n");
}

#[test]
fn built_in_header_and_footer_are_used_without_others() {
    let readme = generate(opts("facet-dev", "content\n", None, None));
    let header = DEFAULT_HEADER.replace("{CRATE}", "facet-dev");
    assert_eq!(readme, format!("{header}\ncontent\n\n{DEFAULT_FOOTER}"));
    assert!(readme.starts_with("# facet-dev\n"));
    assert!(readme.contains("[![crates.io](https://img.shields.io/crates/v/facet-dev.svg)]"));
    assert!(readme.ends_with("at your option.\n"));
}

#[test]
fn crates_are_directories_with_a_manifest() {
    assert!(is_crate_directory(&entry("/w/a", true, true)));
    assert!(!is_crate_directory(&entry("/w/a", false, true)));
    assert!(!is_crate_directory(&entry("/w/a", true, false)));
    assert!(!is_crate_directory(&entry("/w/.git", true, true)));
    assert!(!is_crate_directory(&entry("/w/_a", true, true)));
    assert!(!is_crate_directory(&entry("/w/target", true, true)));
    assert!(is_crate_directory(&entry("/w/targets", true, true)));
    assert!(!is_crate_directory(&entry("..", false, true)));
}

#[test]
fn every_crate_and_the_workspace_get_a_readme() {
    let entries = vec![
        entry("/w/facet-core", true, true),
        entry("/w/target", true, true),
        entry("/w/facet", true, true),
    ];
    let found = readme_targets(&entries, b"/w", "space", &None, &Metadata::empty());
    let names: Vec<&str> = found.iter().map(|t| t.crate_name.as_str()).collect();
    assert_eq!(names, ["facet-core", "facet", "space"]);
    let mut raw = vec![entry("/w/a", true, true)];
    raw[0].path.push(0xff);
    assert_eq!(readme_targets(&raw, b"/w", "space", &None, &Metadata::empty())[0].crate_name, "a\u{fffd}");
    assert_eq!(found[0].output_dir, b"/w/facet-core");
    assert_eq!(found[0].templates, [b"/w/facet-core/README.md.in".to_vec()]);
    assert_eq!(found[1].output_dir, b"/w/facet");
    assert_eq!(found[1].templates, [b"/w/facet/README.md.in".to_vec()]);
    assert_eq!(found[2].output_dir, b"/w");
    assert_eq!(found[2].templates, [b"/w/README.md.in".to_vec()]);
}

#[test]
fn a_crate_has_the_name_that_its_manifest_gives() {
    let mut entries = vec![entry("/w/foo-dir", true, true), entry("/w/bar", true, true)];
    entries[0].manifest = Some("[package]\nname = \"foo\"\n".to_string());
    entries[1].manifest = Some("[workspace]\n".to_string());
    let found = readme_targets(&entries, b"/w", "space", &Some(b"/t".to_vec()), &Metadata::empty());
    assert_eq!(found[0].crate_name, "foo");
    assert_eq!(found[0].output_dir, b"/w/foo-dir");
    assert_eq!(
        found[0].templates,
        [b"/t/foo.md.in".to_vec(), b"/w/foo-dir/README.md.in".to_vec()]
    );
    assert_eq!(found[1].crate_name, "bar");
    for manifest in ["[package]\nname = \"foo\" # c\n", "[package] # c\nname = 'foo'\n"] {
        entries[0].manifest = Some(manifest.to_string());
        let found = readme_targets(&entries, b"/w", "space", &None, &Metadata::empty());
        assert_eq!(found[0].crate_name, "foo");
    }
}

#[test]
fn the_metadata_name_a_crate_first() {
    let mut entries = vec![entry("/w/foo-dir", true, true)];
    entries[0].manifest = Some("[package]\nname = \"bar\"\n".to_string());
    let text = r#"{"packages": [{"name": "foo", "manifest_path": "/w/foo-dir/Cargo.toml"}]}"#;
    let metadata = parse_metadata(text.as_bytes()).unwrap();
    let found = readme_targets(&entries, b"/w", "space", &Some(b"/t".to_vec()), &metadata);
    assert_eq!(found[0].crate_name, "foo");
    assert_eq!(found[0].templates[0], b"/t/foo.md.in");
}

#[test]
fn packages_in_deeper_directories_are_found() {
    let text = r#"{"packages": [
        {"manifest_path": "/w/Cargo.toml"}, {"manifest_path": "/w/a/Cargo.toml"},
        {"manifest_path": "/w/crates/b/Cargo.toml"}, {"name": "x"},
        {"manifest_path": "/w/crates//b/Cargo.toml"}, {"manifest_path": "/w/crates/c/Cargo.toml"}
    ]}"#;
    let metadata = parse_metadata(text.as_bytes()).unwrap();
    assert_eq!(
        package_directories(&metadata, b"/w/", &vec![b"/w/a".to_vec(), b"/w/src".to_vec()]),
        [b"/w/crates/b".to_vec(), b"/w/crates/c".to_vec()]
    );
}

#[test]
fn a_directory_of_templates_comes_first() {
    let entries = vec![entry("/w/a", true, true)];
    let found = readme_targets(&entries, b"/w", "space", &Some(b"/t".to_vec()), &Metadata::empty());
    assert_eq!(
        found[0].templates,
        [b"/t/a.md.in".to_vec(), b"/w/a/README.md.in".to_vec()]
    );
    assert_eq!(
        found[1].templates,
        [b"/t/space.md.in".to_vec(), b"/w/README.md.in".to_vec()]
    );
}

#[test]
fn custom_header_and_footer_stand_in_the_workspace() {
    assert_eq!(header_path(b"/w"), b"/w/.facet-dev-templates/readme-header.md");
    assert_eq!(footer_path(b"/w"), b"/w/.facet-dev-templates/readme-footer.md");
}

#[test]
fn a_readme_job_writes_the_readme() {
    let job = readme_job(b"/w/a", opts("é", "b", Some("{CRATE}"), Some("c")), Some(vec![1]));
    assert_eq!(job.path, b"/w/a/README.md");
    assert_eq!(readme_path(b"/w/a"), job.path);
    assert_eq!(job.old_content, Some(vec![1]));
    assert_eq!(job.new_content, "é\nb\nc".as_bytes());
    assert!(!job.executable);
}
