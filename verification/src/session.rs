//! The decisions of a rename session: the answers to the prompts, and the
//! counts reported at the end.
use vstd::prelude::*;

use crate::renamer::{spec_summary, summary_line};
use crate::text::chars_of;

verus! {

/// Whether the characters `cs` spell `word`.
fn spells(cs: &Vec<char>, word: &str) -> (r: bool)
    ensures
        r == (cs@ == word@),
{
    let w = chars_of(word);
    assert(cs@.subrange(0, cs@.len() as int) =~= cs@);
    crate::text::range_equals(cs, 0, cs.len(), &w)
}

/// An answer that confirms: `y`. Any other answer cancels.
pub open spec fn spec_is_yes(answer: Seq<char>) -> bool {
    answer == "y"@
}

/// Whether a (trimmed) answer confirms.
pub fn is_yes(answer: &str) -> (r: bool)
    ensures
        r == spec_is_yes(answer@),
{
    let cs = chars_of(answer);
    spells(&cs, "y")
}

/// An answer to the prompt of interactive mode.
#[derive(PartialEq, Eq, Structural, Clone, Copy, Debug)]
pub enum Reply {
    /// Rename this item.
    Yes,
    /// Keep this item's name (the default).
    No,
    /// Rename this item and all the following ones without asking.
    All,
    /// Stop: rename nothing more.
    Quit,
}

/// The reply a (trimmed) answer gives: `y`, `a` (all) or `q` (quit);
/// anything else, `N` and an empty answer included, is no.
pub open spec fn spec_reply(answer: Seq<char>) -> Reply {
    if answer == "y"@ {
        Reply::Yes
    } else if answer == "a"@ {
        Reply::All
    } else if answer == "q"@ {
        Reply::Quit
    } else {
        Reply::No
    }
}

/// The reply a (trimmed) answer gives.
pub fn parse_reply(answer: &str) -> (r: Reply)
    ensures
        r == spec_reply(answer@),
{
    let cs = chars_of(answer);
    if spells(&cs, "y") {
        Reply::Yes
    } else if spells(&cs, "a") {
        Reply::All
    } else if spells(&cs, "q") {
        Reply::Quit
    } else {
        Reply::No
    }
}

/// What interactive mode does with the current item.
#[derive(PartialEq, Eq, Structural, Clone, Copy, Debug)]
pub enum Step {
    /// Rename it, then ask about the next one.
    Rename,
    /// Keep its name, then ask about the next one.
    Skip,
    /// Rename it and every following item without asking.
    RenameRest,
    /// Stop; this item and the following ones keep their names.
    Stop,
    /// The input ended: stop as for `Stop`, and report an interrupted run.
    Interrupted,
}

/// The step for a reply; `None` when no answer could be read.
pub open spec fn spec_step(reply: Option<Reply>) -> Step {
    match reply {
        Some(Reply::Yes) => Step::Rename,
        Some(Reply::No) => Step::Skip,
        Some(Reply::All) => Step::RenameRest,
        Some(Reply::Quit) => Step::Stop,
        None => Step::Interrupted,
    }
}

/// The step for a reply; `None` when no answer could be read.
pub fn step_for(reply: Option<Reply>) -> (s: Step)
    ensures
        s == spec_step(reply),
{
    match reply {
        Some(Reply::Yes) => Step::Rename,
        Some(Reply::No) => Step::Skip,
        Some(Reply::All) => Step::RenameRest,
        Some(Reply::Quit) => Step::Stop,
        None => Step::Interrupted,
    }
}

/// Exit status of a run that was interrupted.
pub const INTERRUPTED_EXIT_CODE: i32 = 130;

/// Counts of a rename run.
#[derive(PartialEq, Eq, Structural, Clone, Copy, Debug)]
pub struct RunTally {
    pub renamed: usize,
    pub skipped: usize,
    pub failed: usize,
}

impl RunTally {
    /// A run that starts with the items the plan skipped.
    pub fn new(skipped: usize) -> (t: Self)
        ensures
            t.renamed == 0 && t.skipped == skipped && t.failed == 0,
    {
        RunTally { renamed: 0, skipped, failed: 0 }
    }

    /// Counts one rename attempt.
    pub fn record_rename(&mut self, ok: bool)
        requires
            old(self).renamed + old(self).failed < usize::MAX,
        ensures
            final(self).renamed == old(self).renamed + if ok { 1int } else { 0int },
            final(self).failed == old(self).failed + if ok { 0int } else { 1int },
            final(self).skipped == old(self).skipped,
    {
        if ok {
            self.renamed = self.renamed + 1;
        } else {
            self.failed = self.failed + 1;
        }
    }

    /// Counts `n` items that keep their names.
    pub fn record_skips(&mut self, n: usize)
        requires
            old(self).skipped + n <= usize::MAX,
        ensures
            final(self).skipped == old(self).skipped + n,
            final(self).renamed == old(self).renamed,
            final(self).failed == old(self).failed,
    {
        self.skipped = self.skipped + n;
    }

    /// The summary line of the run.
    pub fn summary(&self) -> (r: String)
        ensures
            r@ == spec_summary(self.renamed as nat, self.skipped as nat, self.failed as nat),
    {
        summary_line(self.renamed, self.skipped, self.failed)
    }
}

/// An interactive run: the item to decide on next, whether the remaining
/// items are renamed without asking, and the counts so far. Every item is
/// counted once: renamed, failed or skipped.
pub struct Session {
    total: usize,
    next: usize,
    rename_rest: bool,
    interrupted: bool,
    start: usize,
    tally: RunTally,
}

impl Session {
    /// The items decided so far, with the ones the plan skipped, are the ones counted.
    #[verifier::type_invariant]
    spec fn accounted(self) -> bool {
        &&& self.next <= self.total
        &&& self.start + self.total <= usize::MAX
        &&& self.tally.renamed + self.tally.failed + self.tally.skipped == self.start + self.next
        &&& self.interrupted ==> self.next == self.total
    }

    /// The number of items of the run.
    pub closed spec fn total_items(self) -> nat {
        self.total as nat
    }

    /// The index of the item to decide on next (`total_items` once all are decided).
    pub closed spec fn next_item(self) -> nat {
        self.next as nat
    }

    /// Whether the remaining items are renamed without asking.
    pub closed spec fn renames_rest(self) -> bool {
        self.rename_rest
    }

    /// Whether the input ended before every item was decided.
    pub closed spec fn was_interrupted(self) -> bool {
        self.interrupted
    }

    /// The items the plan skipped, counted before the run.
    pub closed spec fn start_skipped(self) -> nat {
        self.start as nat
    }

    /// The counts so far.
    pub closed spec fn counts(self) -> RunTally {
        self.tally
    }

    /// A run over `total` items, after the plan skipped `skipped` items.
    pub fn new(total: usize, skipped: usize) -> (s: Self)
        requires
            skipped + total <= usize::MAX,
        ensures
            s.total_items() == total,
            s.next_item() == 0,
            !s.renames_rest(),
            !s.was_interrupted(),
            s.start_skipped() == skipped,
            s.counts() == (RunTally { renamed: 0, skipped, failed: 0 }),
    {
        Session { total, next: 0, rename_rest: false, interrupted: false, start: skipped, tally: RunTally::new(skipped) }
    }

    /// The index of the item to decide on, or `None` when every item is decided.
    pub fn current(&self) -> (r: Option<usize>)
        ensures
            r == if self.next_item() < self.total_items() {
                Some(self.next_item() as usize)
            } else {
                None
            },
    {
        if self.next < self.total {
            Some(self.next)
        } else {
            None
        }
    }

    /// Whether the current item is to be asked about.
    pub fn asks(&self) -> (r: bool)
        ensures
            r == !self.renames_rest(),
    {
        !self.rename_rest
    }

    /// Applies the answer about the current item (`None`: no answer could be
    /// read). The item is then renamed for `Rename` and `RenameRest` (see
    /// `record_rename`); for `Skip` it keeps its name; for `Stop` and
    /// `Interrupted` it and every following item keep their names.
    pub fn answer(&mut self, reply: Option<Reply>) -> (s: Step)
        requires
            old(self).next_item() < old(self).total_items(),
            !old(self).renames_rest(),
        ensures
            s == spec_step(reply),
            final(self).total_items() == old(self).total_items(),
            final(self).start_skipped() == old(self).start_skipped(),
            final(self).counts().renamed == old(self).counts().renamed,
            final(self).counts().failed == old(self).counts().failed,
            match s {
                Step::Rename => *final(self) == *old(self),
                Step::RenameRest => {
                    &&& final(self).renames_rest()
                    &&& final(self).next_item() == old(self).next_item()
                    &&& final(self).counts() == old(self).counts()
                    &&& final(self).was_interrupted() == old(self).was_interrupted()
                },
                Step::Skip => {
                    &&& !final(self).renames_rest()
                    &&& final(self).next_item() == old(self).next_item() + 1
                    &&& final(self).counts().skipped == old(self).counts().skipped + 1
                    &&& final(self).was_interrupted() == old(self).was_interrupted()
                },
                Step::Stop | Step::Interrupted => {
                    &&& !final(self).renames_rest()
                    &&& final(self).next_item() == old(self).total_items()
                    &&& final(self).counts().skipped == old(self).counts().skipped
                        + old(self).total_items() - old(self).next_item()
                    &&& final(self).was_interrupted() == (old(self).was_interrupted() || s == Step::Interrupted)
                },
            },
    {
        proof {
            use_type_invariant(&*self);
        }
        let step = step_for(reply);
        let mut tally = self.tally;
        let mut next = self.next;
        let mut rename_rest = self.rename_rest;
        let mut interrupted = self.interrupted;
        match step {
            Step::Rename => {},
            Step::RenameRest => {
                rename_rest = true;
            },
            Step::Skip => {
                tally.record_skips(1);
                next = next + 1;
            },
            Step::Stop => {
                tally.record_skips(self.total - next);
                next = self.total;
            },
            Step::Interrupted => {
                tally.record_skips(self.total - next);
                next = self.total;
                interrupted = true;
            },
        }
        *self = Session { total: self.total, next, rename_rest, interrupted, start: self.start, tally };
        step
    }

    /// Counts the rename of the current item: done (`ok`) or failed.
    pub fn record_rename(&mut self, ok: bool)
        requires
            old(self).next_item() < old(self).total_items(),
        ensures
            final(self).next_item() == old(self).next_item() + 1,
            final(self).counts().renamed == old(self).counts().renamed + if ok { 1int } else { 0int },
            final(self).counts().failed == old(self).counts().failed + if ok { 0int } else { 1int },
            final(self).counts().skipped == old(self).counts().skipped,
            final(self).total_items() == old(self).total_items(),
            final(self).start_skipped() == old(self).start_skipped(),
            final(self).renames_rest() == old(self).renames_rest(),
            final(self).was_interrupted() == old(self).was_interrupted(),
    {
        proof {
            use_type_invariant(&*self);
        }
        let mut tally = self.tally;
        tally.record_rename(ok);
        *self = Session {
            total: self.total,
            next: self.next + 1,
            rename_rest: self.rename_rest,
            interrupted: self.interrupted,
            start: self.start,
            tally,
        };
    }

    /// The counts so far: every item decided, and every item the plan
    /// skipped, is counted once.
    pub fn tally(&self) -> (t: RunTally)
        ensures
            t == self.counts(),
            t.renamed + t.failed + t.skipped == self.start_skipped() + self.next_item(),
            self.next_item() <= self.total_items(),
    {
        proof {
            use_type_invariant(self);
        }
        self.tally
    }

    /// The exit status of the run: `INTERRUPTED_EXIT_CODE` when the input
    /// ended before every item was decided, else 0.
    pub fn exit_code(&self) -> (c: i32)
        ensures
            c == if self.was_interrupted() {
                INTERRUPTED_EXIT_CODE
            } else {
                0
            },
    {
        if self.interrupted {
            INTERRUPTED_EXIT_CODE
        } else {
            0
        }
    }
}

} // verus!
