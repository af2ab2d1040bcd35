use randanarana::cli::Cli;
use randanarana::session::{
    is_yes, parse_reply, step_for, Reply, RunTally, Session, Step, INTERRUPTED_EXIT_CODE,
};

fn cli(length: usize, recursive: bool, dirs: bool) -> Cli {
    Cli {
        length,
        prefix: String::new(),
        suffix: String::new(),
        recursive,
        dirs,
        interactive: false,
        force: false,
        dry_run: false,
        target: ".".to_string(),
    }
}

#[test]
fn yes_answers() {
    assert!(is_yes("y"));
    assert!(!is_yes("Y"));
    assert!(!is_yes("yes"));
    assert!(!is_yes("n"));
    assert!(!is_yes(""));
    assert!(!is_yes("yy"));
}

#[test]
fn interactive_replies() {
    assert_eq!(parse_reply("y"), Reply::Yes);
    assert_eq!(parse_reply("N"), Reply::No);
    assert_eq!(parse_reply(""), Reply::No);
    assert_eq!(parse_reply("a"), Reply::All);
    assert_eq!(parse_reply("q"), Reply::Quit);
    assert_eq!(parse_reply("n"), Reply::No);
    assert_eq!(parse_reply("quit"), Reply::No);
    assert_eq!(parse_reply("A"), Reply::No);
    assert_eq!(step_for(Some(Reply::All)), Step::RenameRest);
    assert_eq!(step_for(None), Step::Interrupted);
}

#[test]
fn run_tally_matches_the_interactive_scenario() {
    // answers y, n, a on three items: two renamed, one skipped
    let mut tally = RunTally::new(0);
    tally.record_rename(true);
    tally.record_skips(1);
    tally.record_rename(true);
    assert_eq!(tally.summary(), "Done: 2 renamed, 1 skipped, 0 failed.");
    // answers y, q on three items: the two remaining ones are skipped
    let mut tally = RunTally::new(0);
    tally.record_rename(true);
    tally.record_skips(2);
    assert_eq!(tally.summary(), "Done: 1 renamed, 2 skipped, 0 failed.");
}

#[test]
fn length_must_be_positive() {
    assert_eq!(
        cli(0, false, false).length_error().as_deref(),
        Some("invalid length: 0 (must be greater than 0)")
    );
    assert_eq!(cli(8, false, false).length_error(), None);
}

#[test]
fn dirs_implies_recursive() {
    assert!(cli(8, false, true).walks_subdirectories());
    assert!(cli(8, true, false).walks_subdirectories());
    assert!(!cli(8, false, false).walks_subdirectories());
}

/// Plays the answers on a session over `total` items, renaming every item
/// that is to be renamed successfully.
fn play(total: usize, skipped: usize, answers: &[&str]) -> Session {
    let mut session = Session::new(total, skipped);
    let mut answers = answers.iter();
    while session.current().is_some() {
        if session.asks() {
            let reply = answers.next().map(|a| parse_reply(a));
            match session.answer(reply) {
                Step::Rename | Step::RenameRest => {}
                Step::Skip | Step::Stop | Step::Interrupted => continue,
            }
        }
        session.record_rename(true);
    }
    session
}

#[test]
fn session_honors_yes_no_all() {
    let s = play(3, 0, &["y", "n", "a"]);
    let t = s.tally();
    assert_eq!((t.renamed, t.skipped, t.failed), (2, 1, 0));
    assert_eq!(s.exit_code(), 0);
    assert_eq!(t.summary(), "Done: 2 renamed, 1 skipped, 0 failed.");
}

#[test]
fn session_all_renames_the_rest_without_asking() {
    let s = play(4, 0, &["a"]);
    let t = s.tally();
    assert_eq!((t.renamed, t.skipped, t.failed), (4, 0, 0));
}

#[test]
fn session_quit_counts_the_rest_as_skipped() {
    let s = play(3, 0, &["y", "q"]);
    let t = s.tally();
    assert_eq!((t.renamed, t.skipped, t.failed), (1, 2, 0));
    assert_eq!(s.exit_code(), 0);
}

#[test]
fn session_end_of_input_is_an_interruption() {
    let s = play(1, 0, &[]);
    let t = s.tally();
    assert_eq!((t.renamed, t.skipped, t.failed), (0, 1, 0));
    assert_eq!(s.exit_code(), INTERRUPTED_EXIT_CODE);
    assert_eq!(s.exit_code(), 130);
}

#[test]
fn session_counts_failed_renames_and_plan_skips() {
    let mut s = Session::new(2, 5);
    assert_eq!(s.current(), Some(0));
    assert_eq!(s.answer(Some(Reply::Yes)), Step::Rename);
    s.record_rename(false);
    assert_eq!(s.current(), Some(1));
    assert_eq!(s.answer(Some(Reply::No)), Step::Skip);
    assert_eq!(s.current(), None);
    let t = s.tally();
    assert_eq!((t.renamed, t.skipped, t.failed), (0, 6, 1));
}
