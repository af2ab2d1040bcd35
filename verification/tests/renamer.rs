use rand::rngs::StdRng;
use rand::SeedableRng;
use randanarana::names::NameGenerator;
use randanarana::paths::ItemPath;
use randanarana::renamer::{
    check_feasibility, descend_into, discover, display_path, empty_plan_lines, plan, preview_lines,
    summary_line,
    EntryKind, Item, ListedEntry, PlanError,
};

fn path(parts: &[&str]) -> ItemPath {
    ItemPath {
        components: parts.iter().map(|s| s.to_string()).collect(),
    }
}

fn base() -> ItemPath {
    path(&["/", "tmp", "base"])
}

fn under(name: &str) -> ItemPath {
    let mut p = base();
    for part in name.split('/') {
        p.components.push(part.to_string());
    }
    p
}

fn texts(paths: &[ItemPath]) -> Vec<String> {
    paths.iter().map(|p| p.text()).collect()
}

fn generator(prefix: &str, suffix: &str) -> NameGenerator {
    NameGenerator::new(
        prefix.to_string(),
        suffix.to_string(),
        8,
        StdRng::seed_from_u64(1),
    )
}

fn generator_with_length(prefix: &str, suffix: &str, length: usize) -> NameGenerator {
    NameGenerator::new(
        prefix.to_string(),
        suffix.to_string(),
        length,
        StdRng::seed_from_u64(1),
    )
}

fn message(result: Result<randanarana::renamer::Plan, PlanError>) -> String {
    match result {
        Ok(_) => panic!("expected an error"),
        Err(e) => e.message(),
    }
}

#[test]
fn plan_skips_already_random_unless_force() {
    let random = under("Ab3x9Qpz.jpg");
    let normal = under("normal.jpg");
    let files = vec![random.duplicate(), normal.duplicate()];

    let first = plan(&mut generator("", ""), &files, &[], false).ok().unwrap();
    assert_eq!(first.skipped, 1);
    assert_eq!(first.items.len(), 1);
    assert_eq!(first.items[0].path.text(), normal.text());

    let forced = plan(&mut generator("", ""), &files, &[], true).ok().unwrap();
    assert_eq!(forced.skipped, 0);
    assert_eq!(forced.items.len(), 2);
}

#[test]
fn plan_respects_prefix_and_suffix() {
    let prefixed = under("abc98765432x.jpg");
    let other = under("abc98765432.jpg");
    let files = vec![prefixed.duplicate(), other.duplicate()];

    let prefixed = plan(&mut generator("abc", "x"), &files, &[], false).ok().unwrap();
    assert_eq!(prefixed.skipped, 1);
    assert_eq!(prefixed.items.len(), 1);
    assert_eq!(prefixed.items[0].path.text(), other.text());
}

#[test]
fn plan_skips_already_random_directories() {
    let random_dir = under("Ab3x9Qpz");
    let normal_dir = under("notes");
    let dirs = vec![random_dir.duplicate(), normal_dir.duplicate()];

    let dirs_plan = plan(&mut generator("", ""), &[], &dirs, false).ok().unwrap();
    assert_eq!(dirs_plan.skipped, 1);
    assert_eq!(dirs_plan.items.len(), 1);
    assert_eq!(dirs_plan.items[0].path.text(), normal_dir.text());
}

#[test]
fn plan_accepts_pools_that_each_fit() {
    let files: Vec<ItemPath> = (0..20)
        .map(|i| under(&format!("photo{i}.jpg")))
        .chain((0..20).map(|i| under(&format!("image{i}.png"))))
        .collect();

    let plan = plan(&mut generator_with_length("", "", 1), &files, &[], false).ok().unwrap();
    assert_eq!(plan.items.len(), 40);
    assert_eq!(plan.skipped, 0);
}

#[test]
fn plan_rejects_pool_that_overflows() {
    let files: Vec<ItemPath> = (0..60)
        .map(|i| under(&format!("photo{i}.jpg")))
        .chain((0..5).map(|i| under(&format!("image{i}.png"))))
        .collect();

    let err = message(plan(&mut generator_with_length("", "", 1), &files, &[], false));
    assert!(err.contains("62"), "message: {err}");
    assert!(err.contains("120"), "message: {err}");
}

#[test]
fn plan_force_can_make_an_acceptable_run_unfeasible() {
    let bodies: Vec<char> = (b'a'..=b'z')
        .chain(b'A'..=b'Z')
        .chain(b'0'..=b'9')
        .map(|c| c as char)
        .collect();
    assert_eq!(bodies.len(), 62);
    let files: Vec<ItemPath> = bodies.iter().map(|c| under(&format!("{c}.jpg"))).collect();

    let ok = plan(&mut generator_with_length("", "", 1), &files, &[], false).ok().unwrap();
    assert_eq!(ok.skipped, 62);
    assert_eq!(ok.items.len(), 0);

    let err = message(plan(&mut generator_with_length("", "", 1), &files, &[], true));
    assert!(err.contains("62"), "message: {err}");
}

#[test]
fn plan_dirs_and_extensionless_share_one_pool() {
    let files: Vec<ItemPath> = (0..30).map(|i| under(&format!("readme{i}"))).collect();
    let dirs: Vec<ItemPath> = (0..30).map(|i| under(&format!("folder{i}"))).collect();

    let err = message(plan(&mut generator_with_length("", "", 1), &files, &dirs, false));
    assert!(err.contains("62"), "message: {err}");
}

#[test]
fn plan_error_message_is_exact() {
    let files: Vec<ItemPath> = (0..60).map(|i| under(&format!("photo{i}.jpg"))).collect();
    let err = message(plan(&mut generator_with_length("", "", 1), &files, &[], false));
    assert_eq!(
        err,
        "cannot rename with --length 1: \".jpg\" needs 120 unique names (60 existing + 60 to rename) but only 62^1 = 62 are possible. Use a longer --length."
    );
    let dirs: Vec<ItemPath> = (0..40).map(|i| under(&format!("d{i}"))).collect();
    let err = message(plan(&mut generator_with_length("", "", 1), &[], &dirs, false));
    assert_eq!(
        err,
        "cannot rename with --length 1: directories and extensionless files needs 80 unique names (40 existing + 40 to rename) but only 62^1 = 62 are possible. Use a longer --length."
    );
}

#[test]
fn plan_error_message_names_the_extension_alone() {
    let files: Vec<ItemPath> = (0..32).map(|i| under(&format!("photo{i}.jpg"))).collect();
    let err = message(plan(&mut generator_with_length("", "", 1), &files, &[], false));
    assert_eq!(
        err,
        "cannot rename with --length 1: \".jpg\" needs 64 unique names (32 existing + 32 to rename) but only 62^1 = 62 are possible. Use a longer --length."
    );
}

#[test]
fn refused_plan_leaves_the_generator_as_it_was() {
    let photos: Vec<ItemPath> = (0..32).map(|i| under(&format!("photo{i}.jpg"))).collect();
    let small: Vec<ItemPath> = (0..3).map(|i| under(&format!("x{i}.png"))).collect();
    let mut used = generator_with_length("", "", 1);
    assert!(plan(&mut used, &photos, &[], false).is_err());
    let after = plan(&mut used, &small, &[], false).ok().unwrap();
    let fresh = plan(&mut generator_with_length("", "", 1), &small, &[], false).ok().unwrap();
    let names = |p: &randanarana::renamer::Plan| -> Vec<String> {
        p.items.iter().map(|i| i.new_name.clone()).collect()
    };
    assert_eq!(names(&after), names(&fresh));
}

#[test]
fn plan_reports_a_pool_whose_names_are_all_taken() {
    // 31 files "X.jpg" take 31 names of the directory pool's pattern (suffix ".jpg"),
    // 16 directories named "Y.jpg" (already random, so kept) take 16 more,
    // leaving 15 names for the 16 other directories.
    let chars: Vec<char> = (b'a'..=b'z')
        .chain(b'A'..=b'Z')
        .chain(b'0'..=b'9')
        .map(|c| c as char)
        .collect();
    let files: Vec<ItemPath> = chars[..31]
        .iter()
        .map(|c| under(&format!("{c}.jpg")))
        .collect();
    let dirs: Vec<ItemPath> = chars[31..47]
        .iter()
        .map(|c| under(&format!("{c}.jpg")))
        .chain((0..16).map(|i| under(&format!("dir{i}"))))
        .collect();
    let result = plan(&mut generator_with_length("", ".jpg", 1), &files, &dirs, false);
    match result {
        Err(PlanError::NamesExhausted { pool }) => assert_eq!(pool, None),
        _ => panic!("expected the directory pool to run out of names"),
    }
}

#[test]
fn planned_names_are_fresh_and_distinct() {
    let files: Vec<ItemPath> = (0..30).map(|i| under(&format!("f{i}.txt"))).collect();
    let p = plan(&mut generator_with_length("", "", 1), &files, &[], false).ok().unwrap();
    let mut names: Vec<&str> = p.items.iter().map(|it| it.new_name.as_str()).collect();
    names.sort();
    names.dedup();
    assert_eq!(names.len(), 30);
    for it in &p.items {
        assert!(it.new_name.ends_with(".txt"));
        assert_eq!(it.new_name.len(), 5);
        assert!(!it.new_name.starts_with('f') || it.new_name.len() == 5);
    }
}

#[test]
fn new_path_keeps_the_directory() {
    let files = vec![under("sub/a.txt")];
    let p = plan(&mut generator("", ""), &files, &[], false).ok().unwrap();
    let item = &p.items[0];
    let new_path = item.new_path();
    assert_eq!(new_path.components.len(), 5);
    assert_eq!(new_path.components[3], "sub");
    assert_eq!(new_path.components[4], item.new_name);
    assert_eq!(display_path(&new_path, &base()), format!("sub/{}", item.new_name));
}

#[test]
fn display_path_is_relative_to_target() {
    assert_eq!(display_path(&under("sub/a.txt"), &base()), "sub/a.txt");
    assert_eq!(display_path(&path(&["/", "elsewhere", "x"]), &base()), "/elsewhere/x");
    assert_eq!(display_path(&base(), &base()), "");
    assert_eq!(display_path(&path(&[".", "a"]), &path(&["."])), "a");
}

#[test]
fn discover_sorts_files_and_dirs() {
    let listing = vec![
        ListedEntry { path: under("b.txt"), kind: EntryKind::File },
        ListedEntry { path: under("a.txt"), kind: EntryKind::File },
        ListedEntry { path: under(".hidden"), kind: EntryKind::File },
        ListedEntry { path: under("sub"), kind: EntryKind::Dir },
        ListedEntry { path: under("sub/deep.txt"), kind: EntryKind::File },
        ListedEntry { path: under("sub/inner"), kind: EntryKind::Dir },
        ListedEntry { path: under(".git"), kind: EntryKind::Dir },
        ListedEntry { path: under(".git/config"), kind: EntryKind::File },
        ListedEntry { path: under("link"), kind: EntryKind::Other },
        ListedEntry { path: under("A.txt"), kind: EntryKind::File },
    ];
    let (files, dirs) = discover(&base(), &listing, false, false);
    assert_eq!(
        texts(&files),
        ["/tmp/base/A.txt", "/tmp/base/a.txt", "/tmp/base/b.txt"]
    );
    assert!(dirs.is_empty());

    let (files, dirs) = discover(&base(), &listing, true, true);
    assert_eq!(
        texts(&files),
        ["/tmp/base/A.txt", "/tmp/base/a.txt", "/tmp/base/b.txt", "/tmp/base/sub/deep.txt"]
    );
    assert_eq!(texts(&dirs), ["/tmp/base/sub/inner", "/tmp/base/sub"]);
}

#[test]
fn discover_orders_components_not_text() {
    // Path order compares component by component: "a/b" comes before "a-b".
    let listing = vec![
        ListedEntry { path: under("a-b"), kind: EntryKind::File },
        ListedEntry { path: under("a/b"), kind: EntryKind::File },
    ];
    let (files, _) = discover(&base(), &listing, true, false);
    assert_eq!(texts(&files), ["/tmp/base/a/b", "/tmp/base/a-b"]);
    let mut std_order = vec![
        std::path::PathBuf::from("/tmp/base/a-b"),
        std::path::PathBuf::from("/tmp/base/a/b"),
    ];
    std_order.sort();
    assert_eq!(std_order[0], std::path::PathBuf::from("/tmp/base/a/b"));
}

#[test]
fn walk_descends_only_into_visible_directories() {
    assert!(descend_into("sub", EntryKind::Dir, true, false));
    assert!(descend_into("sub", EntryKind::Dir, false, true));
    assert!(!descend_into("sub", EntryKind::Dir, false, false));
    assert!(!descend_into(".git", EntryKind::Dir, true, true));
    assert!(!descend_into("file", EntryKind::File, true, true));
}

#[test]
fn preview_is_truncated_with_a_note() {
    let files: Vec<ItemPath> = (0..25).map(|i| under(&format!("f{i:02}.txt"))).collect();
    let p = plan(&mut generator("", ""), &files, &[], false).ok().unwrap();
    let lines = preview_lines(&p.items, 3, &base(), "/tmp/base");
    assert_eq!(lines[0], "Target: /tmp/base");
    assert_eq!(lines[1], "Items to rename (25):");
    assert_eq!(lines.len(), 2 + 20 + 2);
    assert_eq!(lines[2], format!("  f00.txt -> {}", p.items[0].new_name));
    assert_eq!(lines[22], "  ... and 5 more (preview truncated, showing 20)");
    assert_eq!(
        lines[23],
        "3 already-random item(s) skipped (use --force to rename them)."
    );
}

#[test]
fn short_preview_has_no_truncation_note() {
    let p = plan(&mut generator("", ""), &[under("a.jpg")], &[], false).ok().unwrap();
    let lines = preview_lines(&p.items, 0, &base(), "/tmp/base/");
    assert_eq!(lines.len(), 3);
    assert_eq!(lines[1], "Items to rename (1):");
}

#[test]
fn preview_pads_original_names_to_one_column() {
    let target = path(&["/", "home", "thos", "Pictures"]);
    let items: Vec<Item> = [
        ("IMG_2020.jpg", "7Qkz3YpT.jpg"),
        ("photo.png", "Lw4aVb9x.png"),
        ("notes.txt", "VtS8CwQj.txt"),
    ]
    .iter()
    .map(|(old, new)| Item {
        path: path(&["/", "home", "thos", "Pictures", old]),
        new_name: new.to_string(),
    })
    .collect();
    assert_eq!(
        preview_lines(&items, 0, &target, "/home/thos/Pictures"),
        [
            "Target: /home/thos/Pictures",
            "Items to rename (3):",
            "  IMG_2020.jpg -> 7Qkz3YpT.jpg",
            "  photo.png    -> Lw4aVb9x.png",
            "  notes.txt    -> VtS8CwQj.txt",
        ]
    );
}

#[test]
fn preview_keeps_the_target_as_given() {
    let p = plan(&mut generator("", ""), &[under("a.jpg")], &[], false).ok().unwrap();
    let lines = preview_lines(&p.items, 0, &base(), "photos/");
    assert_eq!(lines[0], "Target: photos/");
}

#[test]
fn summary_line_counts() {
    assert_eq!(summary_line(3, 0, 0), "Done: 3 renamed, 0 skipped, 0 failed.");
    assert_eq!(summary_line(2, 1, 12), "Done: 2 renamed, 1 skipped, 12 failed.");
}

#[test]
fn feasible_run_with_dotless_directories_gets_all_names() {
    // With --force, pools of 31 ".jpg" files and of 16 directories fit in
    // 62 names each, and since directory names hold no dot, no pool runs out.
    let chars: Vec<char> = (b'a'..=b'z')
        .chain(b'A'..=b'Z')
        .chain(b'0'..=b'9')
        .map(|c| c as char)
        .collect();
    let files: Vec<ItemPath> = chars[..31]
        .iter()
        .map(|c| under(&format!("{c}.jpg")))
        .collect();
    let dirs: Vec<ItemPath> = (0..16).map(|i| under(&format!("dir{i}"))).collect();
    let p = plan(&mut generator_with_length("", "", 1), &files, &dirs, true).ok().unwrap();
    assert_eq!(p.items.len(), 47);
    assert_eq!(p.skipped, 0);
}

#[test]
fn feasibility_is_refused_once_a_pool_overflows() {
    let g = generator_with_length("", "", 1);
    let files: Vec<ItemPath> = (0..31).map(|i| under(&format!("p{i}.jpg"))).collect();
    assert!(check_feasibility(&g, &files, &[], false).is_ok());
    let more: Vec<ItemPath> = (0..32).map(|i| under(&format!("p{i}.jpg"))).collect();
    match check_feasibility(&g, &more, &[], false) {
        Err(PlanError::NotEnoughNames {
            length,
            pool,
            existing,
            to_rename,
            limit,
        }) => {
            assert_eq!(length, 1);
            assert_eq!(pool, Some(".jpg".to_string()));
            assert_eq!((existing, to_rename, limit), (32, 32, 62));
        }
        _ => panic!("expected a refusal"),
    }
    // Adding a directory to a refused run keeps it refused.
    let dirs = vec![under("d")];
    assert!(check_feasibility(&g, &more, &dirs, false).is_err());
}

#[test]
fn feasibility_with_force_counts_every_item() {
    let g = generator_with_length("", "", 1);
    let chars: Vec<char> = ('a'..='z').chain('A'..='Z').chain('0'..='9').collect();
    let files: Vec<ItemPath> = chars.iter().map(|c| under(&format!("{c}.jpg"))).collect();
    assert!(check_feasibility(&g, &files, &[], false).is_ok());
    assert!(check_feasibility(&g, &files, &[], true).is_err());
}

#[test]
fn empty_plan_reports_skips_then_nothing_to_rename() {
    assert_eq!(empty_plan_lines(0), ["No items to rename."]);
    assert_eq!(
        empty_plan_lines(2),
        [
            "2 already-random item(s) skipped (use --force to rename them).",
            "No items to rename."
        ]
    );
}
