use rand::rngs::StdRng;
use rand::SeedableRng;
use randanarana::names::{
    assemble_name, extension_with_dot, max_names, random_body, NameGenerator, CHARSET,
};
use std::collections::HashSet;

fn thread_seeded() -> StdRng {
    StdRng::from_rng(&mut rand::rng())
}

#[test]
fn body_has_expected_length() {
    let mut rng = thread_seeded();
    assert_eq!(random_body(8, &mut rng).len(), 8);
}

#[test]
fn body_uses_only_charset_characters() {
    let mut rng = thread_seeded();
    let body = random_body(32, &mut rng);
    assert!(body.chars().all(|c| CHARSET.as_bytes().contains(&(c as u8))));
}

#[test]
fn max_names_exact_values() {
    assert_eq!(max_names(1), Some(62));
    assert_eq!(max_names(2), Some(3844));
    assert_eq!(max_names(3), Some(238_328));
}

#[test]
fn max_names_overflows_for_large_lengths() {
    assert_eq!(max_names(10), Some(62u64.pow(10)));
    assert_eq!(max_names(11), None);
}

#[test]
fn max_names_grows_with_length() {
    let mut previous = 0u64;
    for length in 1..10 {
        let current = max_names(length).unwrap();
        assert!(current > previous, "not monotonic at length {length}");
        previous = current;
    }
}

#[test]
fn max_names_is_none_for_every_long_length() {
    assert_eq!(max_names(12), None);
    assert_eq!(max_names(usize::MAX), None);
    if let Some(wraps_to_one) = (u32::MAX as usize).checked_add(2) {
        assert_eq!(max_names(wraps_to_one), None);
    }
}

#[test]
fn max_names_of_zero_is_one() {
    assert_eq!(max_names(0), Some(1));
}

#[test]
fn extension_keeps_dot_and_case() {
    assert_eq!(extension_with_dot("photo.jpg").as_deref(), Some(".jpg"));
    assert_eq!(extension_with_dot("archive.tar.gz").as_deref(), Some(".gz"));
    assert_eq!(extension_with_dot("photo.JPG").as_deref(), Some(".JPG"));
}

#[test]
fn no_extension_for_dir_or_plain_name() {
    assert_eq!(extension_with_dot("photos"), None);
    assert_eq!(extension_with_dot("my_dir"), None);
    assert_eq!(extension_with_dot(".bashrc"), None);
}

#[test]
fn extension_follows_the_last_path_component() {
    assert_eq!(extension_with_dot("dir.d/file.txt").as_deref(), Some(".txt"));
    assert_eq!(extension_with_dot("dir.d/file"), None);
    assert_eq!(extension_with_dot("a.b/"), Some(".b".to_string()));
    assert_eq!(extension_with_dot("a.b/."), Some(".b".to_string()));
    assert_eq!(extension_with_dot("a.b/.."), None);
    assert_eq!(extension_with_dot(".."), None);
    assert_eq!(extension_with_dot(""), None);
    assert_eq!(extension_with_dot("name."), Some(".".to_string()));
    assert_eq!(extension_with_dot(".hidden.txt").as_deref(), Some(".txt"));
}

#[test]
fn extension_matches_std_path() {
    let names = [
        "photo.jpg", "a/b.c", "x.", ".x", "..", ".", "a/..", "a/./b.e", "//", "", "a.b.c/",
        "über.ünï", "no_dot", "./q.w",
    ];
    for name in names {
        let expected = std::path::Path::new(name)
            .extension()
            .map(|e| format!(".{}", e.to_str().unwrap()));
        assert_eq!(extension_with_dot(name), expected, "for {name:?}");
    }
}

#[test]
fn assemble_prefix_suffix_and_extension() {
    let name = assemble_name("img_", "Ab3x9Qpz", "_2026", Some(".jpg"));
    assert_eq!(name, "img_Ab3x9Qpz_2026.jpg");
}

#[test]
fn assemble_directory_without_extension() {
    let name = assemble_name("", "Ab3x9Qpz", "", None);
    assert_eq!(name, "Ab3x9Qpz");
}

#[test]
fn generated_names_are_unique() {
    let mut generator =
        NameGenerator::new(String::new(), String::new(), 2, StdRng::seed_from_u64(42));
    let mut seen = HashSet::new();
    for _ in 0..500 {
        let name = generator.generate("a.jpg", false);
        assert!(seen.insert(name), "generated a duplicate name");
    }
}

#[test]
fn reserved_names_are_never_generated() {
    let mut generator =
        NameGenerator::new(String::new(), String::new(), 2, StdRng::seed_from_u64(7));
    generator.reserve("ab.jpg");
    for _ in 0..500 {
        let name = generator.generate("a.jpg", false);
        assert_ne!(name, "ab.jpg", "generated a reserved name");
    }
}

#[test]
fn directories_get_names_without_extension() {
    let mut generator =
        NameGenerator::new(String::new(), String::new(), 8, StdRng::seed_from_u64(1));
    let name = generator.generate("some_dir", true);
    assert!(
        !name.contains('.'),
        "directory name has an extension: {name}"
    );
}

#[test]
fn matches_generated_pattern() {
    let generator = NameGenerator::new(
        "img_".to_string(),
        "_2026".to_string(),
        8,
        StdRng::seed_from_u64(1),
    );
    assert!(generator.matches_pattern("img_Ab3x9Qpz_2026.jpg", false));
    assert!(generator.matches_pattern("img_Ab3x9Qpz_2026", true));
}

#[test]
fn does_not_match_other_names() {
    let generator =
        NameGenerator::new(String::new(), String::new(), 8, StdRng::seed_from_u64(1));
    assert!(!generator.matches_pattern("photo.jpg", false));
    assert!(!generator.matches_pattern("img_photo.jpg", false));
    assert!(!generator.matches_pattern("aB3x9QpZ-extra.jpg", false));
}

#[test]
fn matches_respects_prefix_and_suffix() {
    let generator = NameGenerator::new(
        "pre_".to_string(),
        "_suf".to_string(),
        5,
        StdRng::seed_from_u64(1),
    );
    assert!(generator.matches_pattern("pre_Abc12_suf.jpg", false));
    assert!(!generator.matches_pattern("no_Abc12_suf.jpg", false));
    assert!(!generator.matches_pattern("pre_Abc12.jpg", false));
}

#[test]
fn generated_names_match_the_pattern() {
    let mut generator = NameGenerator::new(
        "img_".to_string(),
        "_x".to_string(),
        6,
        StdRng::seed_from_u64(3),
    );
    for (name, is_dir) in [("a.jpg", false), ("dir", true), ("plain", false)] {
        let new_name = generator.generate(name, is_dir);
        assert!(generator.matches_pattern(&new_name, is_dir), "{new_name}");
        assert!(new_name.starts_with("img_"));
    }
    let n = generator.generate("photo.png", false);
    assert!(n.ends_with("_x.png"));
    assert_eq!(n.len(), "img_".len() + 6 + "_x.png".len());
}

#[test]
fn generator_fills_a_small_pool_then_reports_it_full() {
    let mut generator =
        NameGenerator::new("p".to_string(), String::new(), 1, StdRng::seed_from_u64(9));
    let mut seen = HashSet::new();
    for _ in 0..62 {
        let name = generator.try_generate("x.txt", false).expect("a free name");
        assert!(seen.insert(name));
    }
    assert_eq!(generator.try_generate("y.txt", false), None);
    // another pool still has room
    assert!(generator.try_generate("y.png", false).is_some());
    assert_eq!(generator.length(), 1);
}

#[test]
fn new_thread_generator_generates() {
    let mut generator = NameGenerator::new_thread(String::new(), String::new(), 4);
    let name = generator.generate("a.txt", false);
    assert!(name.ends_with(".txt"));
    assert_eq!(name.len(), 8);
}

#[test]
fn bare_name_strips_only_a_file_extension() {
    let g = NameGenerator::new(String::new(), String::new(), 2, StdRng::seed_from_u64(3));
    assert!(g.matches_pattern("ab.jpg", false));
    assert!(!g.matches_pattern("ab.jpg", true));
    assert!(!g.matches_pattern("xy.tar.gz", false));
    assert!(g.matches_pattern("Q7", true));
    assert_eq!(extension_with_dot("archive.tar.gz"), Some(".gz".to_string()));
}
