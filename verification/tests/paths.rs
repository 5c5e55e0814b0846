use facet_dev::order::Relation;
use facet_dev::paths::{
    compare_paths, depth_above, file_name, first_existing, is_among, is_rust_source, join, parent,
    spans, Kind,
};
use std::path::{Component, Path};

/// Every path of at most `max` bytes from the given ones.
fn all_paths(alphabet: &[u8], max: usize) -> Vec<Vec<u8>> {
    let mut all: Vec<Vec<u8>> = vec![Vec::new()];
    let mut from = 0;
    for _ in 0..max {
        let upto = all.len();
        for i in from..upto {
            for b in alphabet {
                let mut longer = all[i].clone();
                longer.push(*b);
                all.push(longer);
            }
        }
        from = upto;
    }
    all
}

fn as_path(bytes: &[u8]) -> &Path {
    Path::new(std::str::from_utf8(bytes).unwrap())
}

#[test]
fn components_agree_with_std() {
    for path in all_paths(b"a./", 7) {
        let found: Vec<(Kind, &[u8])> =
            spans(&path).iter().map(|s| (s.kind, &path[s.start..s.end])).collect();
        let expected: Vec<(Kind, &[u8])> = as_path(&path)
            .components()
            .map(|c| {
                let kind = match c {
                    Component::RootDir => Kind::Root,
                    Component::CurDir => Kind::Current,
                    Component::ParentDir => Kind::Parent,
                    Component::Normal(_) => Kind::Name,
                    Component::Prefix(_) => unreachable!(),
                };
                (kind, c.as_os_str().to_str().unwrap().as_bytes())
            })
            .collect();
        assert_eq!(found, expected, "{:?}", as_path(&path));
    }
}

#[test]
fn parents_and_names_agree_with_std() {
    for path in all_paths(b"ab./", 6) {
        let std_path = as_path(&path);
        let expected = std_path.parent().map(|p| p.to_str().unwrap().as_bytes().to_vec());
        assert_eq!(parent(&path), expected, "{:?}", std_path);
        let expected = std_path.file_name().map(|n| n.to_str().unwrap().as_bytes().to_vec());
        assert_eq!(file_name(&path), expected, "{:?}", std_path);
    }
}

#[test]
fn a_parent_has_the_components_but_the_last() {
    let path = b"src//./bin/../main.rs".to_vec();
    let above = parent(&path).unwrap();
    assert_eq!(above, b"src//./bin/..");
    assert_eq!(spans(&above).len(), spans(&path).len() - 1);
    assert_eq!(parent(b"/"), None);
    assert_eq!(parent(b""), None);
    assert_eq!(parent(b"Cargo.toml"), Some(Vec::new()));
}

#[test]
fn rust_sources_are_told_by_extension() {
    for path in all_paths(b"rs./", 6) {
        let expected = as_path(&path).extension().is_some_and(|e| e == "rs");
        assert_eq!(is_rust_source(&path), expected, "{:?}", as_path(&path));
    }
    assert!(is_rust_source(b"src/main.rs"));
    assert!(!is_rust_source(b"src/.rs"));
    assert!(!is_rust_source(b"src/main.rs.in"));
}

#[test]
fn joining_paths_agrees_with_std() {
    let dirs = all_paths(b"a./", 4);
    let names = all_paths(b"a./", 3);
    for dir in &dirs {
        for name in &names {
            let expected = as_path(dir).join(as_path(name));
            assert_eq!(join(dir, name), expected.to_str().unwrap().as_bytes());
        }
    }
}

#[test]
fn order_of_paths_agrees_with_std() {
    let paths = all_paths(b"a-./", 4);
    for a in &paths {
        for b in &paths {
            let (left, right) = (as_path(a), as_path(b));
            let expected = if left < right {
                Relation::Before
            } else if left == right {
                Relation::Same
            } else {
                Relation::After
            };
            assert_eq!(compare_paths(a, b), expected, "{:?} {:?}", left, right);
        }
    }
    assert_eq!(compare_paths(b"a/b", b"a-b"), Relation::Before);
    assert_eq!(compare_paths(b"a//b/", b"a/./b"), Relation::Same);
}

#[test]
fn the_first_existing_candidate_is_taken() {
    assert_eq!(first_existing(&vec![false, true, true]), Some(1));
    assert_eq!(first_existing(&vec![false, false]), None);
    assert_eq!(first_existing(&Vec::new()), None);
}

#[test]
fn lying_in_a_directory_agrees_with_std() {
    let all = all_paths(b"a./", 4);
    for path in &all {
        for dir in &all {
            let expected = as_path(path).starts_with(as_path(dir));
            let depth = depth_above(path, dir);
            assert_eq!(depth.is_some(), expected, "{:?} {:?}", as_path(path), as_path(dir));
            if let Some(depth) = depth {
                assert_eq!(depth, as_path(dir).components().count());
            }
        }
    }
}

#[test]
fn paths_are_found_by_their_components() {
    let paths = vec![b"a/b".to_vec(), b"/c".to_vec()];
    assert!(is_among(&paths, b"a//b/"));
    assert!(is_among(&paths, b"/c/."));
    assert!(!is_among(&paths, b"c"));
    assert!(!is_among(&Vec::new(), b"c"));
}
