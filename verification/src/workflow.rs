//! The decisions of one run of the command: what follows the first lint run,
//! the verification of the fixed replica and the check of the workspace.
use vstd::prelude::*;

verus! {

/// The command that runs.
#[derive(Clone, Copy, Debug, PartialEq, Eq, Structural)]
pub enum Mode {
    /// Report findings; never write the workspace.
    Check,
    /// Fix the workspace after verifying the fix.
    Fix,
    /// Verify the fix and report it without writing the workspace.
    DryRun,
}

/// Where a run stands.
#[derive(Clone, Copy, Debug, PartialEq, Eq, Structural)]
pub enum Stage {
    /// The replica has been linted once.
    Linted,
    /// The fix has been applied to the replica and awaits its check.
    Applied,
    /// The fixed replica passed its check; `changed` says whether files differ.
    Verified { changed: bool },
    /// The fix is being written to the workspace.
    Committing,
    /// The run has ended.
    Finished,
}

/// The state of a run.
#[derive(Clone, Copy, Debug, PartialEq, Eq, Structural)]
pub struct RunState {
    /// The command.
    pub mode: Mode,
    /// Where it stands.
    pub stage: Stage,
    /// Whether a check writes a baseline of its findings.
    pub write_baseline: bool,
}

/// What the outside work of a step reports.
#[derive(Clone, Copy, Debug, PartialEq, Eq, Structural)]
pub enum Event {
    /// The first lint run: its number of findings, and whether each has a fix.
    Linted { findings: usize, all_fixable: bool },
    /// The check of the fixed replica, and whether any file changed.
    Checked { passed: bool, changed: bool },
    /// Whether the workspace still holds the snapshot the run started from.
    Snapshot { unchanged: bool },
    /// The fix has been written.
    Committed,
}

/// How a run ends.
#[derive(Clone, Copy, Debug, PartialEq, Eq, Structural)]
pub enum Status {
    /// Nothing to report or fix.
    Passed,
    /// A check found findings.
    Violations,
    /// A check wrote a baseline.
    Baselined,
    /// A dry run verified a fix that would change files.
    WouldFix,
    /// A fix changed files.
    Fixed,
}

/// Why a run stops without finishing.
#[derive(Clone, Copy, Debug, PartialEq, Eq, Structural)]
pub enum Stop {
    /// Some finding has no unambiguous machine-applicable fix.
    Unfixable,
    /// The fixed replica failed its check.
    Rejected,
    /// The workspace changed while the run verified.
    Concurrent,
    /// The event does not belong to the stage.
    OutOfOrder,
}

/// What the run does next.
#[derive(Clone, Copy, Debug, PartialEq, Eq, Structural)]
pub enum Action {
    /// Write the baseline document, then end as baselined with status code 0.
    WriteBaseline,
    /// Apply the fix to the replica, format it and check it.
    ApplyFix,
    /// Check that the workspace still holds the snapshot.
    CheckSnapshot,
    /// Write the fix to the workspace in a transaction.
    Commit,
    /// End with a status and an exit code.
    Finish { status: Status, code: u8 },
    /// Stop with an error.
    Fail { stop: Stop },
}

/// The finish of a run with `status` and exit code `code`.
pub open spec fn finish(status: Status, code: u8) -> Action {
    Action::Finish { status, code }
}

/// What a run does on `event` in `state`.
///
/// | stage | event | action |
/// |---|---|---|
/// | linted | linted | check: write the baseline if asked, else finish, passed (0) without findings and violations (1) with them; fix or dry run: apply the fix if every finding has one, else fail as unfixable |
/// | applied | checked | check the snapshot if the check passed, else fail as rejected |
/// | verified | snapshot | check: out of order; changed workspace: fail as concurrent; dry run: would fix (1) when files change, else passed (0); fix: commit when files change, else passed (0) |
/// | committing | committed | finish, fixed (0) |
/// | any other | any | fail as out of order |
pub open spec fn action_on(state: RunState, event: Event) -> Action {
    match (state.stage, event) {
        (Stage::Linted, Event::Linted { findings, all_fixable }) => {
            if state.mode == Mode::Check && state.write_baseline {
                Action::WriteBaseline
            } else if state.mode == Mode::Check && findings == 0 {
                finish(Status::Passed, 0)
            } else if state.mode == Mode::Check {
                finish(Status::Violations, 1)
            } else if all_fixable {
                Action::ApplyFix
            } else {
                Action::Fail { stop: Stop::Unfixable }
            }
        },
        (Stage::Applied, Event::Checked { passed, .. }) => {
            if passed {
                Action::CheckSnapshot
            } else {
                Action::Fail { stop: Stop::Rejected }
            }
        },
        (Stage::Verified { changed }, Event::Snapshot { unchanged }) => {
            if state.mode == Mode::Check {
                Action::Fail { stop: Stop::OutOfOrder }
            } else if !unchanged {
                Action::Fail { stop: Stop::Concurrent }
            } else if state.mode == Mode::DryRun && changed {
                finish(Status::WouldFix, 1)
            } else if state.mode == Mode::Fix && changed {
                Action::Commit
            } else {
                finish(Status::Passed, 0)
            }
        },
        (Stage::Committing, Event::Committed) => finish(Status::Fixed, 0),
        _ => Action::Fail { stop: Stop::OutOfOrder },
    }
}

/// The stage a run reaches by `action` on `event`: applying the fix awaits its
/// check, checking the snapshot follows a verified replica, a commit is under
/// way, and every other action ends the run.
pub open spec fn stage_after(action: Action, event: Event) -> Stage {
    match (action, event) {
        (Action::ApplyFix, _) => Stage::Applied,
        (Action::CheckSnapshot, Event::Checked { changed, .. }) => Stage::Verified { changed },
        (Action::Commit, _) => Stage::Committing,
        _ => Stage::Finished,
    }
}

/// The next state and action of a run from `state` on `event`: the action of
/// the table above, and the stage it leads to; the mode and the baseline request
/// never change.
pub open spec fn transition(state: RunState, event: Event) -> (RunState, Action) {
    let action = action_on(state, event);
    (RunState { stage: stage_after(action, event), ..state }, action)
}

/// The run's next state and action from `state` on `event`.
pub fn next_step(state: &RunState, event: Event) -> (r: (RunState, Action))
    ensures
        r == transition(*state, event),
{
    let ended = RunState { mode: state.mode, stage: Stage::Finished, write_baseline: state.write_baseline };
    match (state.stage, event) {
        (Stage::Linted, Event::Linted { findings, all_fixable }) => match state.mode {
            Mode::Check => if state.write_baseline {
                (ended, Action::WriteBaseline)
            } else if findings == 0 {
                (ended, Action::Finish { status: Status::Passed, code: 0 })
            } else {
                (ended, Action::Finish { status: Status::Violations, code: 1 })
            },
            _ => if all_fixable {
                (
                    RunState { mode: state.mode, stage: Stage::Applied, write_baseline: state.write_baseline },
                    Action::ApplyFix,
                )
            } else {
                (ended, Action::Fail { stop: Stop::Unfixable })
            },
        },
        (Stage::Applied, Event::Checked { passed, changed }) => if passed {
            (
                RunState {
                    mode: state.mode,
                    stage: Stage::Verified { changed },
                    write_baseline: state.write_baseline,
                },
                Action::CheckSnapshot,
            )
        } else {
            (ended, Action::Fail { stop: Stop::Rejected })
        },
        (Stage::Verified { changed }, Event::Snapshot { unchanged }) => if state.mode == Mode::Check {
            (ended, Action::Fail { stop: Stop::OutOfOrder })
        } else if !unchanged {
            (ended, Action::Fail { stop: Stop::Concurrent })
        } else if state.mode == Mode::DryRun {
            if changed {
                (ended, Action::Finish { status: Status::WouldFix, code: 1 })
            } else {
                (ended, Action::Finish { status: Status::Passed, code: 0 })
            }
        } else if changed {
            (
                RunState { mode: state.mode, stage: Stage::Committing, write_baseline: state.write_baseline },
                Action::Commit,
            )
        } else {
            (ended, Action::Finish { status: Status::Passed, code: 0 })
        },
        (Stage::Committing, Event::Committed) => (ended, Action::Finish { status: Status::Fixed, code: 0 }),
        _ => (ended, Action::Fail { stop: Stop::OutOfOrder }),
    }
}

/// The state of a run whose replica has been linted once.
pub fn start(mode: Mode, write_baseline: bool) -> (state: RunState)
    ensures
        state == (RunState { mode, stage: Stage::Linted, write_baseline }),
{
    RunState { mode, stage: Stage::Linted, write_baseline }
}

/// A check never applies a fix nor writes the workspace: from any state of a
/// check, the next action is neither applying the fix nor committing.
pub proof fn lemma_check_never_writes(state: RunState, event: Event)
    requires
        state.mode == Mode::Check,
    ensures
        !(transition(state, event).1 is ApplyFix),
        !(transition(state, event).1 is Commit),
        transition(state, event).0.mode == Mode::Check,
{
}

/// A commit comes only after verification: it is the step of a fix from a
/// replica that passed its check and changed files, on a workspace that still
/// holds the run's snapshot; and a replica is verified only when its check passed.
pub proof fn lemma_commit_after_verification(state: RunState, event: Event)
    ensures
        transition(state, event).1 is Commit ==> state.mode == Mode::Fix && state.stage == (Stage::Verified {
            changed: true,
        }) && event == (Event::Snapshot { unchanged: true }),
        transition(state, event).0.stage is Verified ==> state.stage == Stage::Applied && event matches Event::Checked {
            passed: true,
            ..
        },
{
}

/// A dry run never writes the workspace, and ends with code 1 exactly when its
/// verified fix would change files.
pub proof fn lemma_dry_run_never_writes(state: RunState, event: Event)
    requires
        state.mode == Mode::DryRun,
    ensures
        !(transition(state, event).1 is Commit),
        transition(state, event).1 matches Action::Finish { code, .. } ==> (code == 1 <==> state.stage == (
        Stage::Verified { changed: true })),
{
}

} // verus!
