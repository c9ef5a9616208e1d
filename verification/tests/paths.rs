use rsy::paths::{
    clean_rel, components, confine_path, file_name, join_path, leading_path, normal_path,
    parent_path, safe_symlink_target, validate_parent, Confine, PathError, Probe,
};

/// Confines a path where `found` tells what stands at each path.
fn confine(base: &str, rel: &str, found: impl Fn(&[u8]) -> Probe) -> Result<String, PathError> {
    let mut probes: Vec<Probe> = Vec::new();
    loop {
        match confine_path(base.as_bytes(), rel.as_bytes(), &probes)? {
            Confine::Probe(path) => probes.push(found(&path)),
            Confine::Path(path) => return Ok(String::from_utf8(path).unwrap()),
        }
    }
}

fn nothing(_: &[u8]) -> Probe {
    Probe::Missing
}

#[test]
fn confine_path_normal() {
    let r = confine("/dst", "a/b/c", nothing).unwrap();
    assert_eq!(r, "/dst/a/b/c");
}

#[test]
fn confine_path_rejects_absolute() {
    assert!(confine("/dst", "/etc/passwd", nothing).is_err());
}

#[test]
fn confine_path_rejects_dotdot_escape() {
    assert!(confine("/dst", "../../etc/passwd", nothing).is_err());
    assert!(confine("/dst", "a/../../etc", nothing).is_err());
}

#[test]
fn confine_path_rejects_dotdot_within_root() {
    assert!(confine("/dst", "a/b/../c", nothing).is_err());
}

#[test]
fn confine_path_rejects_symlinked_ancestor() {
    let found = |path: &[u8]| {
        if path == b"/base/linked" {
            Probe::Symlink
        } else {
            Probe::Missing
        }
    };
    assert!(confine("/base", "linked/file.txt", found).is_err());
}

#[test]
fn safe_symlink_target_rejects_escape() {
    assert!(safe_symlink_target(b"target"));
    assert!(safe_symlink_target(b"dir/../target"));
    assert!(!safe_symlink_target(b"/etc/passwd"));
    assert!(!safe_symlink_target(b"../outside"));
    assert!(!safe_symlink_target(b"dir/../../outside"));
}

#[test]
fn confine_path_asks_for_each_ancestor_in_turn() {
    let base = b"/d";
    let step = |probes: &[Probe]| confine_path(base, b"./a//b/c", probes).unwrap();
    assert_eq!(step(&[]), Confine::Probe(b"/d/a".to_vec()));
    assert_eq!(step(&[Probe::Present]), Confine::Probe(b"/d/a/b".to_vec()));
    assert_eq!(
        step(&[Probe::Present, Probe::Present]),
        Confine::Path(b"/d/a/b/c".to_vec())
    );
    assert_eq!(step(&[Probe::Missing]), Confine::Path(b"/d/a/b/c".to_vec()));
    assert_eq!(
        confine_path(base, b"a/b/c", &[Probe::Present, Probe::Symlink]),
        Err(PathError::SymlinkedAncestor)
    );
    // The last name itself is not looked at.
    assert_eq!(confine_path(base, b"a", &[]), Ok(Confine::Path(b"/d/a".to_vec())));
}

#[test]
fn parents_are_looked_at_in_full() {
    assert_eq!(validate_parent(b"/d", b"a/b", &[]), Ok(Some(b"/d/a".to_vec())));
    assert_eq!(
        validate_parent(b"/d", b"a/b", &[Probe::Present]),
        Ok(Some(b"/d/a/b".to_vec()))
    );
    assert_eq!(validate_parent(b"/d", b"a/b", &[Probe::Present, Probe::Present]), Ok(None));
    assert_eq!(validate_parent(b"/d", b"a/b", &[Probe::Missing]), Ok(None));
    assert_eq!(
        validate_parent(b"/d", b"a/b", &[Probe::Present, Probe::Symlink]),
        Err(PathError::SymlinkedAncestor)
    );
    assert_eq!(validate_parent(b"/d", b"/a", &[]), Err(PathError::Absolute));
    assert_eq!(validate_parent(b"/d", b"a/..", &[]), Err(PathError::ParentDir));
}

#[test]
fn clean_paths_stay_clean() {
    assert_eq!(clean_rel(b"a/./b//c/"), Ok(b"a/b/c".to_vec()));
    assert_eq!(clean_rel(b"./a"), Ok(b"a".to_vec()));
    assert_eq!(clean_rel(b"."), Ok(b"".to_vec()));
    assert_eq!(clean_rel(b""), Ok(b"".to_vec()));
    assert_eq!(clean_rel(b"a/b/c"), Ok(b"a/b/c".to_vec()));
    assert_eq!(clean_rel(b"...a/.b"), Ok(b"...a/.b".to_vec()));
    assert_eq!(clean_rel(b"/.."), Err(PathError::Absolute));
    assert_eq!(clean_rel(b"a/.."), Err(PathError::ParentDir));
}

#[test]
fn paths_are_joined_with_one_separator() {
    assert_eq!(join_path(b"a", b"b"), b"a/b");
    assert_eq!(join_path(b"a/", b"b"), b"a/b");
    assert_eq!(join_path(b"", b"b"), b"b");
}

#[test]
fn components_are_found() {
    assert_eq!(components(b"/a//b/./c".as_slice()), vec![(0, 1), (1, 2), (4, 5), (8, 9)]);
    assert_eq!(components(b"./a".as_slice()), vec![(0, 1), (2, 3)]);
    assert!(components(b"".as_slice()).is_empty());
    assert_eq!(components(&['é', '/', 'x']), vec![(0, 1), (2, 3)]);
}

#[test]
fn normal_form_keeps_components() {
    assert_eq!(normal_path(b"a//b/./c/"), b"a/b/c");
    assert_eq!(normal_path(b"//a/"), b"/a");
    assert_eq!(normal_path(b"./a"), b"./a");
    assert_eq!(normal_path(b"a/../b"), b"a/../b");
    assert_eq!(normal_path(b""), b"");
}

#[test]
fn parents_and_names() {
    assert_eq!(parent_path(b"a/b/c"), Some(b"a/b".to_vec()));
    assert_eq!(parent_path(b"a//b"), Some(b"a".to_vec()));
    assert_eq!(parent_path(b"a"), Some(b"".to_vec()));
    assert_eq!(parent_path(b"/a"), Some(b"/".to_vec()));
    assert_eq!(parent_path(b"/"), None);
    assert_eq!(parent_path(b""), None);
    assert_eq!(file_name(b"a/b/"), Some(b"b".to_vec()));
    assert_eq!(file_name(b"a/.."), None);
    assert_eq!(file_name(b"/"), None);
    assert_eq!(file_name(b"."), None);
}

#[test]
fn link_targets_may_go_up_as_far_as_they_went_down() {
    assert!(safe_symlink_target(b"a/b/../../c"));
    assert!(!safe_symlink_target(b"a/b/../../../c"));
    assert!(safe_symlink_target(b"./."));
    assert!(safe_symlink_target(b""));
}

#[test]
fn leading_components() {
    assert_eq!(leading_path(b"a//b/./c/", 0), b"");
    assert_eq!(leading_path(b"a//b/./c/", 1), b"a");
    assert_eq!(leading_path(b"a//b/./c/", 2), b"a/b");
    assert_eq!(leading_path(b"a//b/./c/", 3), b"a/b/c");
    assert_eq!(leading_path(b"/a/b", 0), b"");
    assert_eq!(leading_path(b"/a/b", 1), b"/");
    assert_eq!(leading_path(b"/a/b", 2), b"/a");
    assert_eq!(leading_path(b"./a", 1), b".");
}
