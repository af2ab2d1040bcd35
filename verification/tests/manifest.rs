use randanarana::manifest::{Manifest, RenameEntry, MANIFEST_NAME, TOOL_VERSION};
use randanarana::paths::ItemPath;

fn path(parts: &[&str]) -> ItemPath {
    ItemPath {
        components: parts.iter().map(|s| s.to_string()).collect(),
    }
}

#[test]
fn entries_store_relative_paths() {
    let target = path(&["/", "tmp", "x", "base"]);
    let entry = RenameEntry::from_paths(
        &path(&["/", "tmp", "x", "base", "sub", "a.txt"]),
        &path(&["/", "tmp", "x", "base", "sub", "XyZ9aBc1.txt"]),
        &target,
    );
    assert_eq!(entry.from, "sub/a.txt");
    assert_eq!(entry.to, "sub/XyZ9aBc1.txt");
}

#[test]
fn entries_outside_the_target_keep_their_path() {
    let target = path(&["/", "tmp", "base"]);
    let entry = RenameEntry::from_paths(
        &path(&["/", "other", "a.txt"]),
        &path(&["/", "other", "b.txt"]),
        &target,
    );
    assert_eq!(entry.from, "/other/a.txt");
    assert_eq!(entry.to, "/other/b.txt");
}

#[test]
fn current_manifest_records_version_and_entries() {
    let entry = RenameEntry {
        from: "sub/a.txt".to_string(),
        to: "sub/XyZ9aBc1.txt".to_string(),
    };
    let manifest = Manifest::current(vec![entry]);
    assert_eq!(manifest.version, 1);
    assert_eq!(manifest.tool_version, "0.1.0");
    assert_eq!(manifest.tool_version, TOOL_VERSION);
    assert_eq!(manifest.renamed.len(), 1);
    assert_eq!(manifest.renamed[0].from, "sub/a.txt");
    assert_eq!(manifest.renamed[0].to, "sub/XyZ9aBc1.txt");
    assert!(MANIFEST_NAME.starts_with('.'));
}

#[test]
fn entry_joined_back_onto_the_target_gives_the_path() {
    let target = path(&["/", "tmp", "x", "base"]);
    let from = path(&["/", "tmp", "x", "base", "sub", "a.txt"]);
    let to = path(&["/", "tmp", "x", "base", "sub", "XyZ9aBc1.txt"]);
    let entry = RenameEntry::from_paths(&from, &to, &target);
    assert_eq!(format!("{}/{}", target.text(), entry.from), from.text());
    assert_eq!(format!("{}/{}", target.text(), entry.to), to.text());
}

#[test]
fn made_at_records_the_clock_reading() {
    let m = Manifest::made_at(Vec::new(), Some(1_700_000_000));
    assert_eq!(m.created_at, 1_700_000_000);
    assert_eq!(m.version, 1);
    assert_eq!(Manifest::made_at(Vec::new(), None).created_at, 0);
}

#[test]
fn current_manifest_is_stamped_with_the_clock() {
    let secs = || {
        std::time::SystemTime::now()
            .duration_since(std::time::UNIX_EPOCH)
            .map(|d| d.as_secs())
            .unwrap_or(0)
    };
    let before = secs();
    let m = Manifest::current(Vec::new());
    let after = secs();
    assert!(before <= m.created_at && m.created_at <= after);
}

#[test]
fn a_run_that_renamed_nothing_leaves_no_manifest() {
    assert!(Manifest::for_run(Vec::new()).is_none());
    let m = Manifest::for_run(vec![RenameEntry {
        from: "a.txt".to_string(),
        to: "XyZ9aBc1.txt".to_string(),
    }])
    .unwrap();
    assert_eq!(m.renamed.len(), 1);
    assert_eq!(m.version, 1);
}
