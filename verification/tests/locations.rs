use diskviz::location::ScanPath;

fn path(parts: &[&str]) -> ScanPath {
    ScanPath::new(parts.iter().map(|p| p.to_string()).collect())
}

#[test]
fn parent_drops_the_last_component() {
    assert_eq!(path(&["a", "b", "c"]).parent(), Some(path(&["a", "b"])));
    assert_eq!(path(&["a"]).parent(), Some(path(&[])));
    assert_eq!(path(&[]).parent(), None);
}

#[test]
fn parent_or_falls_back_where_there_is_no_parent() {
    let root = path(&["R"]);
    assert_eq!(path(&["a", "b"]).parent_or(&root), path(&["a"]));
    assert_eq!(path(&[]).parent_or(&root), root);
}

#[test]
fn name_is_the_last_component() {
    assert_eq!(path(&["a", "b", "c.txt"]).name(), "c.txt");
    assert_eq!(path(&[]).name(), "");
}

#[test]
fn child_test_compares_the_parent() {
    let root = path(&["/", "home"]);
    assert!(path(&["/", "home", "u"]).is_child_of(&root));
    assert!(!path(&["/", "home", "u", "v"]).is_child_of(&root));
    assert!(!path(&["/", "home"]).is_child_of(&root));
    assert!(!path(&["/", "other", "u"]).is_child_of(&root));
    assert!(!path(&[]).is_child_of(&root));
    assert!(path(&["x"]).is_child_of(&path(&[])));
}

#[test]
fn same_as_compares_components() {
    assert!(path(&["a", "b"]).same_as(&path(&["a", "b"])));
    assert!(!path(&["a", "b"]).same_as(&path(&["a", "c"])));
    assert!(!path(&["a", "b"]).same_as(&path(&["a"])));
    assert!(!path(&["ab"]).same_as(&path(&["a", "b"])));
    assert!(path(&[]).same_as(&path(&[])));
}

#[test]
fn prefix_and_clone_copy_components() {
    let p = path(&["a", "b", "c"]);
    assert_eq!(p.prefix(0), path(&[]));
    assert_eq!(p.prefix(2), path(&["a", "b"]));
    assert_eq!(p.prefix(3), p);
    assert_eq!(p.clone(), p);
    assert_eq!(p.len(), 3);
    assert_eq!(path(&[]).len(), 0);
}

#[test]
fn starts_with_compares_leading_components() {
    let base = path(&["a", "b"]);
    assert!(path(&["a", "b"]).starts_with(&base));
    assert!(path(&["a", "b", "c", "d"]).starts_with(&base));
    assert!(!path(&["a"]).starts_with(&base));
    assert!(!path(&["a", "c", "b"]).starts_with(&base));
    assert!(!path(&["ab", "c"]).starts_with(&base));
    assert!(path(&["x"]).starts_with(&path(&[])));
    assert!(path(&[]).starts_with(&path(&[])));
}
