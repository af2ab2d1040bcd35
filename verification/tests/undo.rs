use randanarana::manifest::{Manifest, RenameEntry};
use randanarana::undo::{classify, undo_preview_lines, Action, UndoTally};

fn entry(from: &str, to: &str) -> RenameEntry {
    RenameEntry {
        from: from.to_string(),
        to: to.to_string(),
    }
}

#[test]
fn classify_restores_when_target_present_and_original_free() {
    assert!(matches!(classify(true, false), Action::Restore));
}

#[test]
fn classify_skips_when_new_name_is_gone() {
    assert!(matches!(classify(false, false), Action::Skip));
}

#[test]
fn classify_skips_when_already_restored() {
    assert!(matches!(classify(false, true), Action::Skip));
}

#[test]
fn classify_fails_when_original_name_taken() {
    assert!(matches!(classify(true, true), Action::Failed));
}

#[test]
fn undo_tally_counts_and_decides_deletion() {
    let mut tally = UndoTally::new();
    tally.record(Action::Restore, true);
    tally.record(Action::Skip, false);
    assert!(tally.deletes_manifest());
    tally.record(Action::Restore, false);
    tally.record(Action::Failed, false);
    assert_eq!(tally.summary(), "Done: 1 restored, 1 skipped, 2 failed.");
    assert!(!tally.deletes_manifest());
}

#[test]
fn undo_preview_lists_current_then_original() {
    let target = "/tmp/";
    let one = Manifest {
        version: 1,
        tool_version: "0.1.0".to_string(),
        created_at: 0,
        renamed: vec![entry("a.txt", "XyZ9aBc1.txt")],
    };
    assert_eq!(
        undo_preview_lines(&one, target),
        ["Target: /tmp/", "1 item to restore:", "  XyZ9aBc1.txt -> a.txt"]
    );
    let many = Manifest {
        version: 1,
        tool_version: "0.1.0".to_string(),
        created_at: 0,
        renamed: (0..22).map(|i| entry(&format!("o{i}"), &format!("n{i}"))).collect(),
    };
    let lines = undo_preview_lines(&many, target);
    assert_eq!(lines[1], "22 items to restore:");
    assert_eq!(lines.len(), 2 + 20 + 1);
    assert_eq!(lines[22], "  ... and 2 more (preview truncated, showing 20)");
}
