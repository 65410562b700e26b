use syntext::error::IndexError;
use syntext::path_resolve::{
    intermediate_directories, join_path, leads_outside, normal_path,
    path_has_intermediate_symlink, repo_relative_path, same_path, split_components, strip_prefix,
    EntryKind, ParentSight,
};

fn parts(p: &str) -> Vec<String> {
    split_components(p.as_bytes())
        .into_iter()
        .map(|c| String::from_utf8(c).unwrap())
        .collect()
}

#[test]
fn components_skip_empty_names_and_dots() {
    assert_eq!(parts("/a//b/./c/"), vec!["/", "a", "b", "c"]);
    assert_eq!(parts("./a"), vec![".", "a"]);
    assert_eq!(parts("a/../b"), vec!["a", "..", "b"]);
    assert_eq!(parts("/."), vec!["/"]);
    assert!(parts("").is_empty());
}

#[test]
fn prefixes_are_compared_by_component() {
    assert!(strip_prefix(b"/repo/src/a.rs", b"/repo").is_some());
    assert!(strip_prefix(b"/repo/src/a.rs", b"/repo/").is_some());
    assert!(strip_prefix(b"/repository/a.rs", b"/repo").is_none());
    assert!(strip_prefix(b"src/a.rs", b".").is_none());
    assert_eq!(strip_prefix(b"./src/a.rs", b"."), Some(vec![b"src".to_vec(), b"a.rs".to_vec()]));
}

#[test]
fn paths_join_as_the_system_joins_them() {
    assert_eq!(join_path(b"/repo", b"a/b"), b"/repo/a/b");
    assert_eq!(join_path(b"/repo/", b"a"), b"/repo/a");
    assert_eq!(join_path(b"/repo", b"/abs"), b"/abs");
    assert_eq!(join_path(b"", b"a"), b"a");
}

fn resolve(path: &str, parent: ParentSight) -> Result<String, String> {
    match repo_relative_path(path.as_bytes(), &parent, b"/link", b"/real") {
        Ok(p) => Ok(String::from_utf8(p).unwrap()),
        Err(IndexError::PathOutsideRepo(p)) => Err(String::from_utf8(p).unwrap()),
        Err(other) => panic!("unexpected {other:?}"),
    }
}

#[test]
fn either_root_is_stripped() {
    assert_eq!(resolve("/link/src/a.rs", ParentSight::Plain), Ok("src/a.rs".to_string()));
    assert_eq!(resolve("/real/src/a.rs", ParentSight::Plain), Ok("src/a.rs".to_string()));
}

#[test]
fn paths_outside_are_refused() {
    for bad in ["/other/a.rs", "/link/../a.rs", "/real/src/../../a.rs", "a.rs"] {
        assert_eq!(resolve(bad, ParentSight::Plain), Err(bad.to_string()));
    }
}

#[test]
fn linked_parents_are_resolved() {
    let into = |dir: &str| ParentSight::Linked(dir.as_bytes().to_vec());
    assert_eq!(
        resolve("/link/alias/x/a.rs", into("/real/deep/x")),
        Ok("deep/x/a.rs".to_string())
    );
    assert_eq!(
        resolve("/link/alias/a.rs", into("/elsewhere")),
        Err("/link/alias/a.rs".to_string())
    );
}

#[test]
fn the_first_odd_directory_decides() {
    assert_eq!(path_has_intermediate_symlink(&vec![EntryKind::Other, EntryKind::Symlink, EntryKind::Failed]), Ok(true));
    assert_eq!(path_has_intermediate_symlink(&vec![EntryKind::Other, EntryKind::Missing, EntryKind::Symlink]), Ok(false));
    assert_eq!(path_has_intermediate_symlink(&vec![EntryKind::Other, EntryKind::Failed, EntryKind::Symlink]), Err(1));
    assert_eq!(path_has_intermediate_symlink(&vec![EntryKind::Other, EntryKind::Other]), Ok(false));
    let dirs: Vec<Vec<u8>> = intermediate_directories(b"a/b/c.rs");
    assert_eq!(dirs, vec![b"a".to_vec(), b"a/b".to_vec()]);
    assert!(intermediate_directories(b"c.rs").is_empty());
}

#[test]
fn paths_that_lead_out_are_noticed() {
    assert!(leads_outside(b"a/../b"));
    assert!(leads_outside(b"/a"));
    assert!(!leads_outside(b"a/..b/./c"));
}

#[test]
fn normal_forms_tell_paths_apart() {
    let normal = |p: &str| String::from_utf8(normal_path(p.as_bytes())).unwrap();
    assert_eq!(normal("a//b/./c/"), "a/b/c");
    assert_eq!(normal("//a///b"), "/a/b");
    assert_eq!(normal("/"), "/");
    assert_eq!(normal("./a"), "./a");
    assert_eq!(normal("a/../b"), "a/../b");
    assert_eq!(normal(""), "");
    for p in ["a//b/./c/", "//a///b", "/", "./a/.", "..", ""] {
        assert_eq!(normal(&normal(p)), normal(p));
        assert_eq!(parts(&normal(p)), parts(p));
    }
    assert!(same_path(b"a/b", b"a//b/"));
    assert!(!same_path(b"a/b", b"/a/b"));
    assert!(!same_path(b"a", b"./a"));
}
