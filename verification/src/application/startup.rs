//! Starting up, ending, and what happens while the program runs in the background.

use vstd::prelude::*;
use std::collections::HashMap;

use crate::application::crash_recovery;
use crate::application::crash_recovery::JournalRecoveryChoice;
use crate::application::display_recovery_service;
use crate::application::display_recovery_service::{RecoveryDecision, MAX_RECOVERY_ATTEMPTS};
use crate::application::monitor_watch_service;
use crate::application::switch_coordinator::SwitchError;
use crate::application::workset_service;
use crate::domain::monitor::{MonitorInfo, SavedMonitor};
use crate::domain::runtime::{RuntimeState, SwitchJournal};
use crate::domain::workset::Workset;
use crate::ids::Uuid;
use crate::text;
use crate::windowing::enumerate::TopLevelWindow;
use crate::windowing::matcher::WindowMatching;

verus! {

broadcast use vstd::std_specs::hash::group_hash_axioms;

// ---------------------------------------------------------------------------
// A journal that was left behind
// ---------------------------------------------------------------------------

/// What to do about a journal when the program starts.
#[derive(Clone, Copy, Debug, PartialEq, Eq, Structural)]
pub enum JournalStep {
    /// There is none.
    Nothing,
    /// The switch went through: the journal is cleared without a word.
    Clear,
    /// The user is asked; so many windows are affected.
    Ask(usize),
}

pub fn startup_step(journal: Option<&SwitchJournal>, current_workset_id: Option<Uuid>) -> (r:
    JournalStep)
    ensures
        r == match journal {
            None => JournalStep::Nothing,
            Some(j) => if crash_recovery::has_succeeded(*j, current_workset_id) {
                JournalStep::Clear
            } else {
                JournalStep::Ask(j.windows@.len() as usize)
            },
        },
{
    match journal {
        None => JournalStep::Nothing,
        Some(j) => if crash_recovery::already_succeeded(j, current_workset_id) {
            JournalStep::Clear
        } else {
            JournalStep::Ask(j.windows.len())
        },
    }
}

/// How a question is answered.
#[derive(Clone, Copy, Debug, PartialEq, Eq, Structural)]
pub enum Answer {
    Yes,
    No,
    Cancel,
}

/// What an answer to the question about the journal means.
pub fn recovery_choice(answer: Answer) -> (r: JournalRecoveryChoice)
    ensures
        r == match answer {
            Answer::Yes => JournalRecoveryChoice::RestoreOriginalPlacement,
            Answer::No => JournalRecoveryChoice::RecoverAllToMain,
            Answer::Cancel => JournalRecoveryChoice::DoNothing,
        },
{
    match answer {
        Answer::Yes => JournalRecoveryChoice::RestoreOriginalPlacement,
        Answer::No => JournalRecoveryChoice::RecoverAllToMain,
        Answer::Cancel => JournalRecoveryChoice::DoNothing,
    }
}

/// Whether the journal is cleared once the choice was carried out. Where nothing was done it stays,
/// and the user is asked again the next time.
pub fn clears_journal(choice: JournalRecoveryChoice) -> (r: bool)
    ensures
        r == (choice != JournalRecoveryChoice::DoNothing),
{
    match choice {
        JournalRecoveryChoice::DoNothing => false,
        _ => true,
    }
}

/// Whether the journal is cleared after a switch that failed: where everything could be put back.
/// Where something could not, it stays for the next start.
pub fn failure_clears_journal(error: &SwitchError) -> (r: bool)
    ensures
        r == (error is RolledBack),
{
    match error {
        SwitchError::RolledBack { .. } => true,
        _ => false,
    }
}

/// The question about the journal.
pub fn recovery_question(affected: usize) -> (r: String)
    ensures
        r@ == "前回の切替が中断されました("@ + text::decimal(affected as nat)
            + "件のウィンドウに影響)。\n\n[はい] 元の配置に戻す\n[いいえ] 全ウィンドウをメイン画面へ回収\n[キャンセル] 何もしない(次回起動時に再度確認します)"@,
{
    let number = text::decimal_text(affected as u64);
    text::joined3(
        "前回の切替が中断されました(",
        number.as_str(),
        "件のウィンドウに影響)。\n\n[はい] 元の配置に戻す\n[いいえ] 全ウィンドウをメイン画面へ回収\n[キャンセル] 何もしない(次回起動時に再度確認します)",
    )
}

// ---------------------------------------------------------------------------
// Sessions
// ---------------------------------------------------------------------------

/// Notes that the program runs. Handles from before the system was started are of no use any more,
/// so bindings are kept only within one session of the system.
pub fn begin_session(runtime: &mut RuntimeState, same_session: bool, session: String)
    ensures
        !final(runtime).last_clean_shutdown,
        same_session ==> *final(runtime) == (RuntimeState {
            last_clean_shutdown: false,
            ..*old(runtime)
        }),
        !same_session ==> {
            &&& final(runtime).window_bindings@ == Map::<Uuid, isize>::empty()
            &&& final(runtime).window_binding_session == Some(session)
            &&& final(runtime).current_workset_id == old(runtime).current_workset_id
            &&& final(runtime).auto_slot_assignments == old(runtime).auto_slot_assignments
            &&& final(runtime).agent_runs == old(runtime).agent_runs
            &&& final(runtime).last_seen_monitor_fingerprint
                == old(runtime).last_seen_monitor_fingerprint
        },
{
    runtime.last_clean_shutdown = false;
    if !same_session {
        runtime.window_bindings = HashMap::new();
        runtime.window_binding_session = Some(session);
    }
}

/// Notes that the program ended as it should.
pub fn end_session(runtime: &mut RuntimeState)
    ensures
        *final(runtime) == (RuntimeState { last_clean_shutdown: true, ..*old(runtime) }),
{
    runtime.last_clean_shutdown = true;
}

// ---------------------------------------------------------------------------
// Monitors that come and go
// ---------------------------------------------------------------------------

/// What to do when the system says that the display has changed.
#[derive(Debug)]
pub struct DisplayChange {
    pub fingerprint: String,
    /// The windows that lie outside all monitors now and are minimized.
    pub offscreen: Vec<isize>,
}

/// Decides what a change of the display comes to. Where the monitors are the same as before (only
/// their scale has changed, say) nothing is to be done.
pub fn display_changed<M: WindowMatching>(
    matching: &M,
    last_seen: &Option<String>,
    worksets: &[Workset],
    live_windows: &[TopLevelWindow],
    live_monitors: &[MonitorInfo],
) -> (r: Option<DisplayChange>)
    ensures
        ({
            let now = monitor_watch_service::fingerprint_of(live_monitors@);
            &&& r is None <==> text::opt_text(*last_seen) == Some(now)
            &&& r matches Some(change) ==> {
                &&& change.fingerprint@ == now
                &&& change.offscreen@ == monitor_watch_service::offscreen(
                    workset_service::all_windows(worksets@),
                    workset_service::all_decisions(
                        *matching,
                        worksets@,
                        live_windows@,
                        Map::empty(),
                        None,
                    ),
                    live_windows@,
                    live_monitors@,
                )
            }
        }),
{
    let fingerprint = monitor_watch_service::compute_fingerprint(live_monitors);
    if let Some(seen) = last_seen {
        if text::same_text(seen.as_str(), fingerprint.as_str()) {
            return None;
        }
    }
    let offscreen = monitor_watch_service::find_now_offscreen_windows(
        matching,
        worksets,
        live_windows,
        live_monitors,
    );
    Some(DisplayChange { fingerprint, offscreen })
}

/// The attempts to bring missing monitors back since the system last woke up.
#[derive(Clone, Copy, Debug)]
pub struct RecoveryLoop {
    pub attempts: u32,
}

impl RecoveryLoop {
    /// Each time the system wakes up, all attempts are free again.
    pub fn resumed() -> (r: RecoveryLoop)
        ensures
            r.attempts == 0,
    {
        RecoveryLoop { attempts: 0 }
    }

    /// Decides whether to look for missing monitors once more, and counts the attempt.
    pub fn step(
        &mut self,
        saved_monitors: &[SavedMonitor],
        live_device_names: &[String],
        enabled: bool,
    ) -> (r: RecoveryDecision)
        ensures
            ({
                let missing = display_recovery_service::missing_ids(
                    saved_monitors@,
                    live_device_names@,
                );
                if !enabled {
                    r is Disabled
                } else if saved_monitors@.len() == 0 {
                    r is NoSavedTopology
                } else if missing.len() == 0 {
                    r is UpToDate
                } else if old(self).attempts >= MAX_RECOVERY_ATTEMPTS {
                    r matches RecoveryDecision::GiveUp { missing: m } && text::texts(m@) == missing
                } else {
                    r matches RecoveryDecision::Recover { missing: m, attempt } && text::texts(m@)
                        == missing && attempt == old(self).attempts + 1
                }
            }),
            final(self).attempts == match r {
                RecoveryDecision::Recover { missing: _, attempt } => attempt,
                _ => old(self).attempts,
            },
            r is Recover ==> final(self).attempts == old(self).attempts + 1
                && final(self).attempts <= MAX_RECOVERY_ATTEMPTS,
    {
        let decision = display_recovery_service::decide_recovery(
            saved_monitors,
            live_device_names,
            self.attempts,
            enabled,
        );
        if let RecoveryDecision::Recover { missing: _, attempt } = &decision {
            self.attempts = *attempt;
        }
        decision
    }
}

} // verus!
