//! The decisions of a run: check, fix and dry run.

use rust_statement_spacing::workflow::{next_step, start, Action, Event, Mode, Stage, Status, Stop};

#[test]
fn check_reports_without_writing() {
    let state = start(Mode::Check, false);
    let (next, action) = next_step(&state, Event::Linted { findings: 2, all_fixable: true });
    assert_eq!(action, Action::Finish { status: Status::Violations, code: 1 });
    assert_eq!(next.stage, Stage::Finished);
    let (_, action) = next_step(&state, Event::Linted { findings: 0, all_fixable: false });
    assert_eq!(action, Action::Finish { status: Status::Passed, code: 0 });
    let (_, action) = next_step(&start(Mode::Check, true), Event::Linted { findings: 3, all_fixable: false });
    assert_eq!(action, Action::WriteBaseline);
}

#[test]
fn fix_commits_only_a_verified_change_on_an_unchanged_workspace() {
    let state = start(Mode::Fix, false);
    let (_, action) = next_step(&state, Event::Linted { findings: 1, all_fixable: false });
    assert_eq!(action, Action::Fail { stop: Stop::Unfixable });
    let (state, action) = next_step(&state, Event::Linted { findings: 1, all_fixable: true });
    assert_eq!(action, Action::ApplyFix);
    let (_, action) = next_step(&state, Event::Checked { passed: false, changed: true });
    assert_eq!(action, Action::Fail { stop: Stop::Rejected });
    let (state, action) = next_step(&state, Event::Checked { passed: true, changed: true });
    assert_eq!(action, Action::CheckSnapshot);
    let (_, action) = next_step(&state, Event::Snapshot { unchanged: false });
    assert_eq!(action, Action::Fail { stop: Stop::Concurrent });
    let (state, action) = next_step(&state, Event::Snapshot { unchanged: true });
    assert_eq!(action, Action::Commit);
    let (_, action) = next_step(&state, Event::Committed);
    assert_eq!(action, Action::Finish { status: Status::Fixed, code: 0 });
}

#[test]
fn dry_run_reports_a_would_be_fix() {
    let state = start(Mode::DryRun, false);
    let (state, _) = next_step(&state, Event::Linted { findings: 1, all_fixable: true });
    let (state, _) = next_step(&state, Event::Checked { passed: true, changed: true });
    let (_, action) = next_step(&state, Event::Snapshot { unchanged: true });
    assert_eq!(action, Action::Finish { status: Status::WouldFix, code: 1 });
    let (_, action) = next_step(&state, Event::Committed);
    assert_eq!(action, Action::Fail { stop: Stop::OutOfOrder });
}
