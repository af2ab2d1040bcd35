//! Undoing a run: what to do with each recorded rename, and what to report.
use vstd::prelude::*;

use crate::manifest::{Manifest, RenameEntry};
use crate::names::names_view;
use crate::text::{append_str, decimal, decimal_text};

verus! {

/// How many restorations the undo preview shows.
pub const UNDO_PREVIEW_MAX: usize = 20;

/// What to do with one recorded rename.
#[derive(PartialEq, Eq, Structural, Clone, Copy, Debug)]
pub enum Action {
    /// Rename the item back to its original name.
    Restore,
    /// The item no longer carries its new name: leave it.
    Skip,
    /// The original name is taken: report an error.
    Failed,
}

/// Decide what to do with an entry, from whether its new name (`to`) and
/// its original name (`from`) exist on disk.
pub fn classify(to_exists: bool, from_exists: bool) -> (a: Action)
    ensures
        !to_exists ==> a == Action::Skip,
        to_exists && from_exists ==> a == Action::Failed,
        to_exists && !from_exists ==> a == Action::Restore,
{
    if !to_exists {
        Action::Skip
    } else if from_exists {
        Action::Failed
    } else {
        Action::Restore
    }
}

/// Counts of an undo run.
#[derive(PartialEq, Eq, Structural, Clone, Copy, Debug)]
pub struct UndoTally {
    pub restored: usize,
    pub skipped: usize,
    pub failed: usize,
}

impl UndoTally {
    /// No entry handled yet.
    pub fn new() -> (t: Self)
        ensures
            t.restored == 0 && t.skipped == 0 && t.failed == 0,
    {
        UndoTally { restored: 0, skipped: 0, failed: 0 }
    }

    /// Counts one entry: handled by `action`; for `Restore`, `renamed` tells
    /// whether the rename back succeeded.
    pub fn record(&mut self, action: Action, renamed: bool)
        requires
            old(self).restored + old(self).skipped + old(self).failed < usize::MAX,
        ensures
            final(self).restored == old(self).restored + if action == Action::Restore && renamed { 1int } else { 0int },
            final(self).skipped == old(self).skipped + if action == Action::Skip { 1int } else { 0int },
            final(self).failed == old(self).failed + if action == Action::Failed || (action == Action::Restore && !renamed) { 1int } else { 0int },
    {
        match action {
            Action::Restore => {
                if renamed {
                    self.restored = self.restored + 1;
                } else {
                    self.failed = self.failed + 1;
                }
            },
            Action::Skip => {
                self.skipped = self.skipped + 1;
            },
            Action::Failed => {
                self.failed = self.failed + 1;
            },
        }
    }

    /// The manifest is deleted only when nothing failed.
    pub fn deletes_manifest(&self) -> (r: bool)
        ensures
            r == (self.failed == 0),
    {
        self.failed == 0
    }

    /// The summary line of the undo run.
    pub fn summary(&self) -> (r: String)
        ensures
            r@ == "Done: "@ + decimal(self.restored as nat) + " restored, "@ + decimal(self.skipped as nat)
                + " skipped, "@ + decimal(self.failed as nat) + " failed."@,
    {
        let mut line = "Done: ".to_owned();
        append_str(&mut line, decimal_text(self.restored as u128).as_str());
        append_str(&mut line, " restored, ");
        append_str(&mut line, decimal_text(self.skipped as u128).as_str());
        append_str(&mut line, " skipped, ");
        append_str(&mut line, decimal_text(self.failed as u128).as_str());
        append_str(&mut line, " failed.");
        line
    }
}

/// The preview line of one restoration: current name, then original name.
pub open spec fn undo_line(e: RenameEntry) -> Seq<char> {
    "  "@ + e.to@ + " -> "@ + e.from@
}

/// The lines of the undo preview.
pub open spec fn spec_undo_preview(entries: Seq<RenameEntry>, shown_target: Seq<char>) -> Seq<Seq<char>> {
    let n = entries.len();
    let shown = if n <= 20 { n } else { 20 };
    seq![
        "Target: "@ + shown_target,
        if n == 1 {
            "1 item to restore:"@
        } else {
            decimal(n) + " items to restore:"@
        },
    ] + entries.take(shown as int).map_values(|e: RenameEntry| undo_line(e)) + (if n > 20 {
        seq!["  ... and "@ + decimal((n - 20) as nat) + " more (preview truncated, showing 20)"@]
    } else {
        Seq::empty()
    })
}

/// The undo preview lists the recorded renames in the manifest's order, each
/// once: after the target line and the count line, line `k + 2` is
/// `  current -> original` of entry `k`, for each of the first 20 entries;
/// one line more follows when there are more than 20.
pub proof fn lemma_undo_preview_lists_entries(entries: Seq<RenameEntry>, shown_target: Seq<char>)
    ensures
        ({
            let lines = spec_undo_preview(entries, shown_target);
            let shown = if entries.len() <= 20 { entries.len() as int } else { 20 };
            &&& lines.len() == 2 + shown + if entries.len() > 20 { 1int } else { 0int }
            &&& lines[0] == "Target: "@ + shown_target
            &&& forall|k: int| 0 <= k < shown ==> #[trigger] lines[k + 2] == "  "@ + entries[k].to@ + " -> "@
                + entries[k].from@
        }),
{
    let lines = spec_undo_preview(entries, shown_target);
    let shown = if entries.len() <= 20 { entries.len() as int } else { 20 };
    let body = entries.take(shown).map_values(|e: RenameEntry| undo_line(e));
    assert forall|k: int| 0 <= k < shown implies #[trigger] lines[k + 2] == "  "@ + entries[k].to@ + " -> "@
        + entries[k].from@ by {
        assert(body[k] == undo_line(entries[k]));
    }
}

/// The undo preview: the target as the user gave it (`shown_target`), then
/// `current -> original` for each recorded rename, truncated after
/// `UNDO_PREVIEW_MAX` lines.
pub fn undo_preview_lines(manifest: &Manifest, shown_target: &str) -> (r: Vec<String>)
    ensures
        names_view(r@) == spec_undo_preview(manifest.renamed@, shown_target@),
        r@.len() == 2 + (if manifest.renamed@.len() <= 20 { manifest.renamed@.len() as int } else { 20 })
            + if manifest.renamed@.len() > 20 { 1int } else { 0int },
        forall|k: int| 0 <= k < 20 && k < manifest.renamed@.len() ==> (#[trigger] r@[k + 2])@ == "  "@
            + manifest.renamed@[k].to@ + " -> "@ + manifest.renamed@[k].from@,
{
    proof {
        lemma_undo_preview_lists_entries(manifest.renamed@, shown_target@);
    }
    let entries = &manifest.renamed;
    let n = entries.len();
    let mut lines: Vec<String> = Vec::new();
    let mut first = "Target: ".to_owned();
    append_str(&mut first, shown_target);
    lines.push(first);
    assert(names_view(lines@) =~= seq![first@]);
    let second = if n == 1 {
        "1 item to restore:".to_owned()
    } else {
        let mut s = decimal_text(n as u128);
        append_str(&mut s, " items to restore:");
        s
    };
    let ghost one = names_view(lines@);
    lines.push(second);
    assert(names_view(lines@) =~= one.push(second@));
    let shown = if n <= UNDO_PREVIEW_MAX { n } else { UNDO_PREVIEW_MAX };
    let ghost head = names_view(lines@);
    let ghost f = |e: RenameEntry| undo_line(e);
    let mut i: usize = 0;
    while i < shown
        invariant
            shown <= n == entries@.len(),
            i <= shown,
            head.len() == 2,
            names_view(lines@) == head + entries@.take(i as int).map_values(f),
            f == (|e: RenameEntry| undo_line(e)),
        decreases shown - i,
    {
        let mut line = "  ".to_owned();
        append_str(&mut line, entries[i].to.as_str());
        append_str(&mut line, " -> ");
        append_str(&mut line, entries[i].from.as_str());
        let ghost before = names_view(lines@);
        lines.push(line);
        assert(entries@.take(i + 1).map_values(f) =~= entries@.take(i as int).map_values(f).push(f(entries@[i as int])));
        assert(names_view(lines@) =~= before.push(line@));
        i += 1;
    }
    let ghost body = names_view(lines@);
    if n > UNDO_PREVIEW_MAX {
        let mut more = "  ... and ".to_owned();
        append_str(&mut more, decimal_text((n - UNDO_PREVIEW_MAX) as u128).as_str());
        append_str(&mut more, " more (preview truncated, showing 20)");
        let ghost b = names_view(lines@);
        lines.push(more);
        assert(names_view(lines@) =~= b.push(more@));
    }
    assert(entries@.take(shown as int).map_values(|e: RenameEntry| undo_line(e)) == body.subrange(2, body.len() as int));
    assert(names_view(lines@) =~= spec_undo_preview(manifest.renamed@, shown_target@));
    assert forall|k: int| 0 <= k < 20 && k < manifest.renamed@.len() implies (#[trigger] lines@[k + 2])@ == "  "@
        + manifest.renamed@[k].to@ + " -> "@ + manifest.renamed@[k].from@ by {
        assert(names_view(lines@)[k + 2] == lines@[k + 2]@);
    }
    lines
}

} // verus!
