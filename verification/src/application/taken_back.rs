//! What is taken back is as it was: a window that a journal tells of is shown again as the journal
//! has it.

use vstd::prelude::*;

use crate::application::crash_recovery;
use crate::application::effects;
use crate::application::effects::Shown;
use crate::application::recovery_service::RecoveredView;
use crate::application::switch_coordinator;
use crate::application::window_ops::WindowCall;
use crate::application::workset_service;
use crate::domain::runtime::JournalWindowEntry;
use crate::ids::Uuid;
use crate::windowing::matcher::MatchView;

verus! {

/// The window as the journal has it.
pub open spec fn as_journaled(e: JournalWindowEntry) -> Shown {
    Shown { rect: e.before.rect, state: e.before.show_state }
}

proof fn lemma_undo_one(e: JournalWindowEntry, alive: bool, moved: bool, s: Shown, h: isize)
    ensures
        alive && moved ==> effects::after(
            s,
            e.hwnd,
            switch_coordinator::undo_calls(e, alive, moved),
        ) == as_journaled(e),
        h != e.hwnd ==> effects::all_leave_alone(
            switch_coordinator::undo_calls(e, alive, moved),
            h,
        ),
        switch_coordinator::undo_calls(e, alive, moved).contains(
            WindowCall::Alive { hwnd: e.hwnd, alive },
        ),
        alive ==> switch_coordinator::undo_calls(e, alive, moved).contains(
            WindowCall::BatchMove { moves: seq![(e.hwnd, e.before.rect)], done: moved },
        ),
        !alive ==> effects::all_leave_alone(
            switch_coordinator::undo_calls(e, alive, moved),
            e.hwnd,
        ),
{
    let calls = switch_coordinator::undo_calls(e, alive, moved);
    assert(calls[0] == WindowCall::Alive { hwnd: e.hwnd, alive });
    if alive {
        let moves = seq![(e.hwnd, e.before.rect)];
        let asked = Seq::<WindowCall>::empty().push(WindowCall::Alive { hwnd: e.hwnd, alive });
        let restored = asked.push(WindowCall::Restore { hwnd: e.hwnd });
        let batch = restored.push(WindowCall::BatchMove { moves, done: moved });
        assert(calls[2] == WindowCall::BatchMove { moves, done: moved });
        assert(calls.take(3) =~= batch);
        effects::lemma_after_push(s, e.hwnd, Seq::empty(), asked[0]);
        effects::lemma_after_push(s, e.hwnd, asked, restored[1]);
        effects::lemma_after_push(s, e.hwnd, restored, batch[2]);
        assert(moves[0] == (e.hwnd, e.before.rect));
        effects::lemma_moved_once(moves, 0, s.rect);
        if calls.len() == 3 {
            assert(calls =~= batch);
        } else {
            assert(calls =~= batch.push(calls[3]));
            effects::lemma_after_push(s, e.hwnd, batch, calls[3]);
        }
    }
}

/// A window of which the journal told, and which was alive and could be moved when the switch was
/// taken back, is shown again as it was and where it was; unless a later entry names it too.
pub proof fn law_undo_restores_what_was_journaled(
    entries: Seq<JournalWindowEntry>,
    fates: Seq<(bool, bool)>,
    i: int,
    s: Shown,
)
    requires
        fates.len() == entries.len(),
        0 <= i < entries.len(),
        fates[i].0 && fates[i].1,
        forall|j: int| i < j < entries.len() ==> (#[trigger] entries[j]).hwnd != entries[i].hwnd,
    ensures
        effects::after(s, entries[i].hwnd, switch_coordinator::undo_all(entries, fates)) == (
        Shown { rect: entries[i].before.rect, state: entries[i].before.show_state }),
    decreases entries.len(),
{
    let h = entries[i].hwnd;
    let rest = entries.drop_last();
    let before = switch_coordinator::undo_all(rest, fates.drop_last());
    let last = switch_coordinator::undo_calls(entries.last(), fates.last().0, fates.last().1);
    effects::lemma_after_joined(s, h, before, last);
    lemma_undo_one(
        entries.last(),
        fates.last().0,
        fates.last().1,
        effects::after(s, h, before),
        h,
    );
    if i < entries.len() - 1 {
        assert forall|j: int| i < j < rest.len() implies (#[trigger] rest[j]).hwnd
            != rest[i].hwnd by {
            assert(rest[j] == entries[j]);
        }
        law_undo_restores_what_was_journaled(rest, fates.drop_last(), i, s);
        assert(entries[entries.len() - 1].hwnd != h);
        effects::lemma_left_alone(effects::after(s, h, before), h, last);
    }
}

/// How each window fared is what the desktop answered: every window is asked for, and each that is
/// alive is moved.
pub proof fn law_undo_tries_every_window(
    entries: Seq<JournalWindowEntry>,
    fates: Seq<(bool, bool)>,
    i: int,
)
    requires
        fates.len() == entries.len(),
        0 <= i < entries.len(),
    ensures
        switch_coordinator::undo_all(entries, fates).contains(
            WindowCall::Alive { hwnd: entries[i].hwnd, alive: fates[i].0 },
        ),
        fates[i].0 ==> switch_coordinator::undo_all(entries, fates).contains(
            WindowCall::BatchMove {
                moves: seq![(entries[i].hwnd, entries[i].before.rect)],
                done: fates[i].1,
            },
        ),
    decreases entries.len(),
{
    let before = switch_coordinator::undo_all(entries.drop_last(), fates.drop_last());
    let last = switch_coordinator::undo_calls(entries.last(), fates.last().0, fates.last().1);
    let asked = WindowCall::Alive { hwnd: entries[i].hwnd, alive: fates[i].0 };
    let moved = WindowCall::BatchMove {
        moves: seq![(entries[i].hwnd, entries[i].before.rect)],
        done: fates[i].1,
    };
    let s = as_journaled(entries[i]);
    lemma_undo_one(entries.last(), fates.last().0, fates.last().1, s, 0);
    if i < entries.len() - 1 {
        law_undo_tries_every_window(entries.drop_last(), fates.drop_last(), i);
    }
    effects::lemma_contained_in_join(before, last, asked);
    if fates[i].0 {
        effects::lemma_contained_in_join(before, last, moved);
    }
}

/// Exactly the windows that were not alive, or could not be moved, are told as lost.
pub proof fn law_lost_are_those_not_brought_back(
    entries: Seq<JournalWindowEntry>,
    fates: Seq<(bool, bool)>,
    h: isize,
)
    requires
        fates.len() == entries.len(),
    ensures
        switch_coordinator::lost_handles(entries, fates).contains(h) <==> exists|i: int|
            0 <= i < entries.len() && (#[trigger] entries[i]).hwnd == h && !(fates[i].0
                && fates[i].1),
    decreases entries.len(),
{
    let lost = switch_coordinator::lost_handles(entries, fates);
    if entries.len() > 0 {
        let rest = entries.drop_last();
        let left = fates.drop_last();
        law_lost_are_those_not_brought_back(rest, left, h);
        let before = switch_coordinator::lost_handles(rest, left);
        let n = entries.len() - 1;
        if before.contains(h) {
            let k = choose|k: int| 0 <= k < before.len() && before[k] == h;
            assert(lost[k] == h);
            let i = choose|i: int|
                0 <= i < rest.len() && (#[trigger] rest[i]).hwnd == h && !(left[i].0 && left[i].1);
            assert(entries[i].hwnd == h);
        }
        if entries[n].hwnd == h && !(fates[n].0 && fates[n].1) {
            assert(lost[before.len() as int] == h);
        }
        if exists|i: int|
            0 <= i < entries.len() && (#[trigger] entries[i]).hwnd == h && !(fates[i].0
                && fates[i].1) {
            let i = choose|i: int|
                0 <= i < entries.len() && (#[trigger] entries[i]).hwnd == h && !(fates[i].0
                    && fates[i].1);
            if i < n {
                assert(rest[i].hwnd == h);
            }
        }
        if lost.contains(h) && !before.contains(h) {
            let k = choose|k: int| 0 <= k < lost.len() && lost[k] == h;
            if k < before.len() {
                assert(before[k] == h);
            }
            assert(entries[n].hwnd == h);
        }
    }
}

/// What is journaled of each window is what the desktop told of it.
pub proof fn law_journal_holds_what_the_desktop_told(entries: Seq<JournalWindowEntry>, i: int)
    requires
        0 <= i < entries.len(),
    ensures
        switch_coordinator::capture_calls(entries).contains(
            WindowCall::NormalRect { hwnd: entries[i].hwnd, found: Some(entries[i].before.rect) },
        ),
        switch_coordinator::capture_calls(entries).contains(
            WindowCall::ShowState {
                hwnd: entries[i].hwnd,
                found: Some(entries[i].before.show_state),
            },
        ),
    decreases entries.len(),
{
    let before = switch_coordinator::capture_calls(entries.drop_last());
    let last = switch_coordinator::capture_pair(entries.last());
    let rect = WindowCall::NormalRect {
        hwnd: entries[i].hwnd,
        found: Some(entries[i].before.rect),
    };
    let state = WindowCall::ShowState {
        hwnd: entries[i].hwnd,
        found: Some(entries[i].before.show_state),
    };
    if i < entries.len() - 1 {
        law_journal_holds_what_the_desktop_told(entries.drop_last(), i);
    } else {
        assert(last[0] == rect && last[1] == state);
    }
    effects::lemma_contained_in_join(before, last, rect);
    effects::lemma_contained_in_join(before, last, state);
}

/// Asking changes nothing.
pub proof fn law_capturing_changes_nothing(entries: Seq<JournalWindowEntry>, h: isize)
    ensures
        effects::all_leave_alone(switch_coordinator::capture_calls(entries), h),
    decreases entries.len(),
{
    if entries.len() > 0 {
        law_capturing_changes_nothing(entries.drop_last(), h);
        effects::lemma_joined_leave_alone(
            switch_coordinator::capture_calls(entries.drop_last()),
            switch_coordinator::capture_pair(entries.last()),
            h,
        );
    }
}

/// After a crash, a window that is found again by its registration, is alive and can be moved is
/// shown again as it was and where it was, under the handle that it has now; unless a later entry
/// finds the same window.
pub proof fn law_crash_recovery_restores_what_was_journaled(
    entries: Seq<JournalWindowEntry>,
    decisions: Map<Uuid, MatchView>,
    fates: Seq<(bool, bool)>,
    i: int,
    s: Shown,
)
    requires
        fates.len() == entries.len(),
        0 <= i < entries.len(),
        fates[i].0 && fates[i].1,
        workset_service::handle_of(decisions, entries[i].managed_window_id) is Some,
        forall|j: int|
            i < j < entries.len() ==> workset_service::handle_of(
                decisions,
                (#[trigger] entries[j]).managed_window_id,
            ) != workset_service::handle_of(decisions, entries[i].managed_window_id),
    ensures
        effects::after(
            s,
            workset_service::handle_of(decisions, entries[i].managed_window_id)->0,
            crash_recovery::all_calls(entries, decisions, fates),
        ) == (Shown { rect: entries[i].before.rect, state: entries[i].before.show_state }),
    decreases entries.len(),
{
    let h = workset_service::handle_of(decisions, entries[i].managed_window_id)->0;
    let rest = entries.drop_last();
    let before = crash_recovery::all_calls(rest, decisions, fates.drop_last());
    let last = crash_recovery::entry_calls(entries.last(), decisions, fates.last());
    effects::lemma_after_joined(s, h, before, last);
    if let Some(now) = crash_recovery::found_again(entries.last(), decisions) {
        lemma_undo_one(now, fates.last().0, fates.last().1, effects::after(s, h, before), h);
    }
    if i < entries.len() - 1 {
        assert forall|j: int| i < j < rest.len() implies workset_service::handle_of(
            decisions,
            (#[trigger] rest[j]).managed_window_id,
        ) != workset_service::handle_of(decisions, rest[i].managed_window_id) by {
            assert(rest[j] == entries[j]);
        }
        law_crash_recovery_restores_what_was_journaled(
            rest,
            decisions,
            fates.drop_last(),
            i,
            s,
        );
        let n = entries.len() - 1;
        assert(workset_service::handle_of(decisions, entries[n].managed_window_id)
            != workset_service::handle_of(decisions, entries[i].managed_window_id));
        effects::lemma_left_alone(effects::after(s, h, before), h, last);
    }
}

/// After a crash, every window that is found again is asked for, and each that is alive is moved.
pub proof fn law_crash_recovery_tries_every_window(
    entries: Seq<JournalWindowEntry>,
    decisions: Map<Uuid, MatchView>,
    fates: Seq<(bool, bool)>,
    i: int,
)
    requires
        fates.len() == entries.len(),
        0 <= i < entries.len(),
        workset_service::handle_of(decisions, entries[i].managed_window_id) is Some,
    ensures
        ({
            let h = workset_service::handle_of(decisions, entries[i].managed_window_id)->0;
            let calls = crash_recovery::all_calls(entries, decisions, fates);
            &&& calls.contains(WindowCall::Alive { hwnd: h, alive: fates[i].0 })
            &&& fates[i].0 ==> calls.contains(
                WindowCall::BatchMove {
                    moves: seq![(h, entries[i].before.rect)],
                    done: fates[i].1,
                },
            )
        }),
    decreases entries.len(),
{
    let h = workset_service::handle_of(decisions, entries[i].managed_window_id)->0;
    let before = crash_recovery::all_calls(entries.drop_last(), decisions, fates.drop_last());
    let last = crash_recovery::entry_calls(entries.last(), decisions, fates.last());
    let asked = WindowCall::Alive { hwnd: h, alive: fates[i].0 };
    let moved = WindowCall::BatchMove {
        moves: seq![(h, entries[i].before.rect)],
        done: fates[i].1,
    };
    if i < entries.len() - 1 {
        law_crash_recovery_tries_every_window(
            entries.drop_last(),
            decisions,
            fates.drop_last(),
            i,
        );
    } else {
        let now = JournalWindowEntry { hwnd: h, ..entries[i] };
        lemma_undo_one(now, fates[i].0, fates[i].1, as_journaled(now), 0);
    }
    effects::lemma_contained_in_join(before, last, asked);
    if fates[i].0 {
        effects::lemma_contained_in_join(before, last, moved);
    }
}

/// The window of entry `i` was found again, alive, and could be moved.
pub open spec fn came_back(
    entries: Seq<JournalWindowEntry>,
    decisions: Map<Uuid, MatchView>,
    fates: Seq<(bool, bool)>,
    i: int,
) -> bool {
    &&& workset_service::handle_of(decisions, entries[i].managed_window_id) is Some
    &&& fates[i].0
    &&& fates[i].1
}

/// The line of the report that belongs to entry `i`: under its registration, where the window was
/// put, or why it was not.
pub open spec fn tells_of(
    v: RecoveredView,
    entries: Seq<JournalWindowEntry>,
    decisions: Map<Uuid, MatchView>,
    fates: Seq<(bool, bool)>,
    i: int,
) -> bool {
    &&& v.id == entries[i].managed_window_id
    &&& if came_back(entries, decisions, fates, i) {
        &&& v.placed == Some(entries[i].before.rect)
        &&& v.reason is None
        &&& Some(v.hwnd) == workset_service::handle_of(decisions, entries[i].managed_window_id)
    } else {
        v.placed is None && v.reason is Some
    }
}

/// The report lists a window as recovered exactly where it was brought back to its journaled place,
/// and as skipped exactly where it was not.
pub proof fn law_report_tells_what_came_back(
    entries: Seq<JournalWindowEntry>,
    decisions: Map<Uuid, MatchView>,
    fates: Seq<(bool, bool)>,
    i: int,
) -> (k: int)
    requires
        fates.len() == entries.len(),
        0 <= i < entries.len(),
    ensures
        ({
            let list = crash_recovery::reports(
                entries,
                decisions,
                fates,
                came_back(entries, decisions, fates, i),
            );
            0 <= k < list.len() && tells_of(list[k], entries, decisions, fates, i)
        }),
    decreases entries.len(),
{
    let rest = entries.drop_last();
    let left = fates.drop_last();
    let back = came_back(entries, decisions, fates, i);
    let before = crash_recovery::reports(rest, decisions, left, back);
    let list = crash_recovery::reports(entries, decisions, fates, back);
    if i < entries.len() - 1 {
        let k = law_report_tells_what_came_back(rest, decisions, left, i);
        assert(rest[i] == entries[i] && left[i] == fates[i]);
        assert(came_back(rest, decisions, left, i) == back);
        assert(list[k] == before[k]);
        k
    } else {
        assert(list.len() == before.len() + 1);
        before.len() as int
    }
}

} // verus!
