//! The arguments of a run, once parsed, and the checks made on them.
use vstd::prelude::*;

use crate::text::{append_str, decimal, decimal_text};

verus! {

/// Rename the files in a directory with random names (a-zA-Z0-9),
/// keeping the original extension.
pub struct Cli {
    /// Length of the random part
    pub length: usize,
    /// Prefix added to the name (e.g. img_)
    pub prefix: String,
    /// Suffix added to the name (e.g. _2026)
    pub suffix: String,
    /// Also process files in subdirectories (subdirectory names are kept)
    pub recursive: bool,
    /// Also rename subdirectories (implies --recursive)
    pub dirs: bool,
    /// Confirm each item individually
    pub interactive: bool,
    /// Rename items that already match the random pattern
    pub force: bool,
    /// Show the preview only, without renaming
    pub dry_run: bool,
    /// Directory containing the files to rename
    pub target: String,
}

impl Cli {
    /// The error for a length of zero: the random part must not be empty.
    pub fn length_error(&self) -> (r: Option<String>)
        ensures
            r is None <==> self.length > 0,
            r matches Some(m) ==> m@ == "invalid length: "@ + decimal(self.length as nat)
                + " (must be greater than 0)"@,
    {
        if self.length > 0 {
            None
        } else {
            let mut m = "invalid length: ".to_owned();
            append_str(&mut m, decimal_text(self.length as u128).as_str());
            append_str(&mut m, " (must be greater than 0)");
            Some(m)
        }
    }

    /// Whether files in subdirectories are processed: `--recursive`, or
    /// `--dirs`, which implies it.
    pub fn walks_subdirectories(&self) -> (r: bool)
        ensures
            r == (self.recursive || self.dirs),
    {
        self.recursive || self.dirs
    }
}

} // verus!
