//! Taking back a switch that was cut short, when the program is started again.
//!
//! The handles in the journal may be stale by then, so each window is found again first.

use vstd::prelude::*;

use crate::application::recovery_service;
use crate::application::recovery_service::{RecoveredView, RecoveredWindow, RecoveryReport};
use crate::application::switch_coordinator;
use crate::application::window_ops::{Recorder, WindowCall, WindowOps};
use crate::application::workset_service;
use crate::domain::runtime::{JournalStatus, JournalWindowEntry, SwitchJournal};
use crate::domain::workset::Workset;
use crate::ids::Uuid;
use crate::text;
use crate::windowing::enumerate::TopLevelWindow;
use crate::windowing::matcher::{MatchView, WindowMatching};

verus! {

/// What the user may choose to do about a journal that was left behind.
#[derive(Clone, Copy, Debug, PartialEq, Eq, Structural)]
pub enum JournalRecoveryChoice {
    RestoreOriginalPlacement,
    RecoverAllToMain,
    DoNothing,
}

/// The switch went through, and only the journal was not cleared.
pub open spec fn has_succeeded(journal: SwitchJournal, current: Option<Uuid>) -> bool {
    journal.status == JournalStatus::Started && current == Some(journal.to_workset_id)
}

/// Whether the switch went through and only the journal was not cleared, in which case there is
/// nothing to recover.
pub fn already_succeeded(journal: &SwitchJournal, current_workset_id: Option<Uuid>) -> (r: bool)
    ensures
        r == has_succeeded(*journal, current_workset_id),
{
    let reached = match current_workset_id {
        Some(id) => id == journal.to_workset_id,
        None => false,
    };
    journal.status == JournalStatus::Started && reached
}

/// The entry under the handle that its window has now.
pub open spec fn found_again(e: JournalWindowEntry, decisions: Map<Uuid, MatchView>) -> Option<
    JournalWindowEntry,
> {
    match workset_service::handle_of(decisions, e.managed_window_id) {
        Some(hwnd) => Some(JournalWindowEntry { hwnd, ..e }),
        None => None,
    }
}

/// What is done for one entry, given whether the window was alive and could be moved.
pub open spec fn entry_calls(
    e: JournalWindowEntry,
    decisions: Map<Uuid, MatchView>,
    fate: (bool, bool),
) -> Seq<WindowCall> {
    match found_again(e, decisions) {
        Some(now) => switch_coordinator::undo_calls(now, fate.0, fate.1),
        None => Seq::empty(),
    }
}

/// What becomes of one entry.
pub open spec fn entry_report(
    e: JournalWindowEntry,
    decisions: Map<Uuid, MatchView>,
    fate: (bool, bool),
) -> RecoveredView {
    match found_again(e, decisions) {
        Some(now) => if !fate.0 {
            RecoveredView {
                id: e.managed_window_id,
                hwnd: e.hwnd,
                placed: None,
                reason: Some("window could not be re-resolved"@),
            }
        } else if !fate.1 {
            RecoveredView {
                id: e.managed_window_id,
                hwnd: now.hwnd,
                placed: None,
                reason: Some("failed to move window"@),
            }
        } else {
            RecoveredView {
                id: e.managed_window_id,
                hwnd: now.hwnd,
                placed: Some(e.before.rect),
                reason: None,
            }
        },
        None => RecoveredView {
            id: e.managed_window_id,
            hwnd: e.hwnd,
            placed: None,
            reason: Some("window could not be re-resolved"@),
        },
    }
}

/// What is done for all entries, given how each window fared.
pub open spec fn all_calls(
    entries: Seq<JournalWindowEntry>,
    decisions: Map<Uuid, MatchView>,
    fates: Seq<(bool, bool)>,
) -> Seq<WindowCall>
    decreases entries.len(),
{
    if entries.len() == 0 {
        Seq::empty()
    } else {
        all_calls(entries.drop_last(), decisions, fates.drop_last()) + entry_calls(
            entries.last(),
            decisions,
            fates.last(),
        )
    }
}

/// The reports on the entries that were, or were not, brought back, in the order journaled.
pub open spec fn reports(
    entries: Seq<JournalWindowEntry>,
    decisions: Map<Uuid, MatchView>,
    fates: Seq<(bool, bool)>,
    placed: bool,
) -> Seq<RecoveredView>
    decreases entries.len(),
{
    if entries.len() == 0 {
        Seq::empty()
    } else {
        let before = reports(entries.drop_last(), decisions, fates.drop_last(), placed);
        let one = entry_report(entries.last(), decisions, fates.last());
        if (one.placed is Some) == placed {
            before.push(one)
        } else {
            before
        }
    }
}

/// What was done between two moments brings the windows of the journal back, as far as it goes,
/// and the report tells it.
pub open spec fn restores(
    before: Seq<WindowCall>,
    after: Seq<WindowCall>,
    report: RecoveryReport,
    entries: Seq<JournalWindowEntry>,
    decisions: Map<Uuid, MatchView>,
) -> bool {
    exists|fates: Seq<(bool, bool)>|
        {
            &&& fates.len() == entries.len()
            &&& after == before + #[trigger] all_calls(entries, decisions, fates)
            &&& recovery_service::report_view(report.recovered@) == reports(
                entries,
                decisions,
                fates,
                true,
            )
            &&& recovery_service::report_view(report.skipped@) == reports(
                entries,
                decisions,
                fates,
                false,
            )
        }
}

/// Brings every window of the journal back to where it was before the switch. Each is found
/// again by its registration; the handle in the journal is not relied on.
pub fn restore_original_placement<W: WindowOps, M: WindowMatching>(
    window_ops: &mut Recorder<W>,
    matching: &M,
    worksets: &[Workset],
    live_windows: &[TopLevelWindow],
    journal: &SwitchJournal,
) -> (r: RecoveryReport)
    ensures
        final(window_ops).desktop() == old(window_ops).desktop(),
        restores(
            old(window_ops).history(),
            final(window_ops).history(),
            r,
            journal.windows@,
            workset_service::all_decisions(
                *matching,
                worksets@,
                live_windows@,
                Map::empty(),
                None,
            ),
        ),
{
    let ghost start = window_ops.history();
    let decisions = workset_service::resolve_all_matches(matching, worksets, live_windows);
    let ghost dv = workset_service::decisions_view(decisions@);
    let ghost entries = journal.windows@;
    let ghost mut fates = Seq::<(bool, bool)>::empty();
    let mut recovered: Vec<RecoveredWindow> = Vec::new();
    let mut skipped: Vec<RecoveredWindow> = Vec::new();
    let mut i: usize = 0;
    proof {
        assert(start + all_calls(entries.take(0), dv, fates) =~= start);
        assert(recovery_service::report_view(recovered@) =~= reports(
            entries.take(0),
            dv,
            fates,
            true,
        ));
        assert(recovery_service::report_view(skipped@) =~= reports(
            entries.take(0),
            dv,
            fates,
            false,
        ));
    }
    while i < journal.windows.len()
        invariant
            window_ops.desktop() == old(window_ops).desktop(),
            i <= entries.len(),
            entries == journal.windows@,
            dv == workset_service::decisions_view(decisions@),
            fates.len() == i,
            window_ops.history() == start + all_calls(entries.take(i as int), dv, fates),
            recovery_service::report_view(recovered@) == reports(
                entries.take(i as int),
                dv,
                fates,
                true,
            ),
            recovery_service::report_view(skipped@) == reports(
                entries.take(i as int),
                dv,
                fates,
                false,
            ),
        decreases entries.len() - i,
    {
        let e = journal.windows[i];
        let ghost before = window_ops.history();
        let ghost r0 = recovery_service::report_view(recovered@);
        let ghost s0 = recovery_service::report_view(skipped@);
        let ghost f0 = fates;
        let now = workset_service::settled_handle(&decisions, e.managed_window_id);
        let mut fate = (false, false);
        if let Some(hwnd) = now {
            let mut again = e;
            again.hwnd = hwnd;
            fate = switch_coordinator::undo_one(window_ops, again);
        }
        let one = match now {
            Some(hwnd) => if !fate.0 {
                RecoveredWindow {
                    managed_window_id: e.managed_window_id,
                    hwnd: e.hwnd,
                    placed_rect: None,
                    skip_reason: Some(text::owned("window could not be re-resolved")),
                }
            } else if !fate.1 {
                RecoveredWindow {
                    managed_window_id: e.managed_window_id,
                    hwnd,
                    placed_rect: None,
                    skip_reason: Some(text::owned("failed to move window")),
                }
            } else {
                RecoveredWindow {
                    managed_window_id: e.managed_window_id,
                    hwnd,
                    placed_rect: Some(e.before.rect),
                    skip_reason: None,
                }
            },
            None => RecoveredWindow {
                managed_window_id: e.managed_window_id,
                hwnd: e.hwnd,
                placed_rect: None,
                skip_reason: Some(text::owned("window could not be re-resolved")),
            },
        };
        assert(one@ == entry_report(e, dv, fate));
        assert(window_ops.history() =~= before + entry_calls(e, dv, fate));
        let ghost ov = one@;
        if one.placed_rect.is_some() {
            recovered.push(one);
            assert(recovery_service::report_view(recovered@) =~= r0.push(ov));
        } else {
            skipped.push(one);
            assert(recovery_service::report_view(skipped@) =~= s0.push(ov));
        }
        proof {
            fates = f0.push(fate);
            assert(fates.drop_last() =~= f0);
            assert(entries.take(i + 1).drop_last() =~= entries.take(i as int));
            assert(entries.take(i + 1).last() == e);
            assert(window_ops.history() =~= start + all_calls(entries.take(i + 1), dv, fates));
        }
        i += 1;
    }
    assert(entries.take(entries.len() as int) =~= entries);
    RecoveryReport { recovered, skipped }
}

/// Every entry of the journal is reported on exactly once.
pub proof fn law_every_entry_is_reported(
    entries: Seq<JournalWindowEntry>,
    decisions: Map<Uuid, MatchView>,
    fates: Seq<(bool, bool)>,
)
    requires
        fates.len() == entries.len(),
    ensures
        reports(entries, decisions, fates, true).len() + reports(entries, decisions, fates, false).len()
            == entries.len(),
    decreases entries.len(),
{
    if entries.len() > 0 {
        law_every_entry_is_reported(entries.drop_last(), decisions, fates.drop_last());
    }
}

/// A switch whose journal was not cleared is recovered from exactly where its end was not written
/// down: one that has reached its target needs nothing, one that has not does, and one that was
/// taken back never counts as having gone through.
pub proof fn law_only_unfinished_switches_are_recovered(
    journal: SwitchJournal,
    current: Option<Uuid>,
)
    ensures
        journal.status == JournalStatus::Started && current == Some(journal.to_workset_id)
            ==> has_succeeded(journal, current),
        current != Some(journal.to_workset_id) ==> !has_succeeded(journal, current),
        journal.status == JournalStatus::RolledBack ==> !has_succeeded(journal, current),
{
}

} // verus!
