//! The undo manifest: what a run renamed, as paths relative to the target.
use vstd::prelude::*;

use crate::paths::{path_text, relative_text, spec_relative, ItemPath};

verus! {

/// File name of the manifest, kept in the target directory.
pub const MANIFEST_NAME: &'static str = ".randanarana-undo.json";

/// Version of the tool written into manifests.
pub const TOOL_VERSION: &'static str = "0.1.0";

/// The system clock's time (`std::time::SystemTime`), opaque here.
#[verifier::external_type_specification]
#[verifier::external_body]
pub struct ExSystemTime(std::time::SystemTime);

/// The error of a time earlier than the one it is measured from
/// (`std::time::SystemTimeError`), opaque here.
#[verifier::external_type_specification]
#[verifier::external_body]
pub struct ExSystemTimeError(std::time::SystemTimeError);

/// `SystemTime::now`: the current time of the system clock. Nothing is
/// stated of it: it is the clock's.
#[verifier::external_body]
fn clock_now() -> std::time::SystemTime {
    std::time::SystemTime::now()
}

/// `SystemTime::duration_since(UNIX_EPOCH)`: the time elapsed since the Unix
/// epoch, or an error when `t` is before it. Nothing is stated of which
/// comes back: it depends on the clock's reading.
#[verifier::external_body]
fn elapsed_since_epoch(t: &std::time::SystemTime) -> Result<
    std::time::Duration,
    std::time::SystemTimeError,
> {
    t.duration_since(std::time::UNIX_EPOCH)
}

/// `Duration::as_secs`: the whole seconds of `d`. Nothing is stated of the
/// value: a `Duration` is opaque here.
#[verifier::external_body]
fn whole_seconds(d: &std::time::Duration) -> u64 {
    d.as_secs()
}

/// The whole seconds since the Unix epoch by the system clock, `None` when
/// the clock is before the epoch.
fn seconds_since_epoch() -> Option<u64> {
    let now = clock_now();
    match elapsed_since_epoch(&now) {
        Ok(elapsed) => Some(whole_seconds(&elapsed)),
        Err(_) => None,
    }
}

/// One performed rename, as paths relative to the target directory.
pub struct RenameEntry {
    pub from: String,
    pub to: String,
}

/// The text of `path` relative to `target`.
fn relative_string(path: &ItemPath, target: &ItemPath) -> (r: String)
    ensures
        r@ == path_text(spec_relative(path@, target@)),
{
    relative_text(path, target)
}

impl RenameEntry {
    pub fn from_paths(from: &ItemPath, to: &ItemPath, target: &ItemPath) -> (r: Self)
        ensures
            r.from@ == path_text(spec_relative(from@, target@)),
            r.to@ == path_text(spec_relative(to@, target@)),
    {
        RenameEntry { from: relative_string(from, target), to: relative_string(to, target) }
    }
}

/// The undo manifest recording every rename performed by a run.
pub struct Manifest {
    pub version: u32,
    pub tool_version: String,
    pub created_at: u64,
    pub renamed: Vec<RenameEntry>,
}

impl Manifest {
    /// A manifest of this tool version for the renames `renamed`, made when
    /// the clock read `since_epoch` whole seconds after the Unix epoch
    /// (`None`: before it, recorded as 0).
    pub fn made_at(renamed: Vec<RenameEntry>, since_epoch: Option<u64>) -> (m: Self)
        ensures
            m.version == 1,
            m.tool_version@ == TOOL_VERSION@,
            m.renamed@ == renamed@,
            m.created_at == match since_epoch {
                Some(s) => s,
                None => 0,
            },
    {
        let created_at = match since_epoch {
            Some(s) => s,
            None => 0,
        };
        Manifest { version: 1, tool_version: TOOL_VERSION.to_owned(), created_at, renamed }
    }

    /// The manifest a run leaves: one of its renames, made now, when it
    /// renamed something; none when it renamed nothing.
    pub fn for_run(renamed: Vec<RenameEntry>) -> (m: Option<Self>)
        ensures
            m is None <==> renamed@.len() == 0,
            m matches Some(x) ==> {
                &&& x.version == 1
                &&& x.tool_version@ == TOOL_VERSION@
                &&& x.renamed@ == renamed@
            },
    {
        if renamed.len() == 0 {
            None
        } else {
            Some(Self::current(renamed))
        }
    }

    /// Build a manifest for the current run and tool version, made now: its
    /// `created_at` is what `made_at` records for the clock's reading.
    pub fn current(renamed: Vec<RenameEntry>) -> (m: Self)
        ensures
            m.version == 1,
            m.tool_version@ == TOOL_VERSION@,
            m.renamed@ == renamed@,
    {
        Self::made_at(renamed, seconds_since_epoch())
    }
}

} // verus!
