use randanarana::names::body_text;
use randanarana::paths::{is_hidden, ItemPath};

fn path(parts: &[&str]) -> ItemPath {
    ItemPath {
        components: parts.iter().map(|s| s.to_string()).collect(),
    }
}

#[test]
fn path_text_joins_components() {
    assert_eq!(path(&["/", "tmp", "a.txt"]).text(), "/tmp/a.txt");
    assert_eq!(path(&[".", "a"]).text(), "./a");
    assert_eq!(path(&["a", "b"]).text(), "a/b");
    assert_eq!(path(&[]).text(), "");
    // a piece starting with "/" replaces what came before, as PathBuf::push does
    assert_eq!(path(&["a", "/b"]).text(), "/b");
}

#[test]
fn basename_is_the_last_name() {
    assert_eq!(path(&["/", "tmp", "a.txt"]).basename(), "a.txt");
    assert_eq!(path(&["/"]).basename(), "");
    assert_eq!(path(&["a", ".."]).basename(), "");
    assert_eq!(path(&[]).basename(), "");
}

#[test]
fn prefix_and_parent() {
    let p = path(&["/", "tmp", "sub", "a.txt"]);
    assert!(p.starts_with(&path(&["/", "tmp"])));
    assert!(!p.starts_with(&path(&["/", "tm"])));
    let q = p.parent_joined(&"b.txt".to_string());
    assert_eq!(q.text(), "/tmp/sub/b.txt");
    assert_eq!(path(&["/"]).parent_joined(&"x".to_string()).text(), "x");
    assert_eq!(p.duplicate().text(), p.text());
}

#[test]
fn hidden_names_start_with_a_dot() {
    assert!(is_hidden(".git"));
    assert!(is_hidden("."));
    assert!(!is_hidden("a.txt"));
    assert!(!is_hidden(""));
}

#[test]
fn bodies_are_numbered_in_base_62() {
    assert_eq!(body_text(0, 3), "aaa");
    assert_eq!(body_text(61, 1), "9");
    assert_eq!(body_text(62, 2), "ab");
    assert_eq!(body_text(25, 1), "z");
    assert_eq!(body_text(26, 1), "A");
    assert_eq!(body_text(5, 0), "");
}
