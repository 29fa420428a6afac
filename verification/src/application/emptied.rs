//! What emptying the main screen is for: every window leaves for its place or is minimized, and all
//! of it can be taken back.

use vstd::prelude::*;

use crate::application::effects;
use crate::application::effects::Shown;
use crate::application::empty_main;
use crate::application::empty_main::{Attempt, Emptying, Reading};
use crate::application::evicted;
use crate::application::journaled;
use crate::application::layout_service::UndoEntry;
use crate::application::parking_allocator;
use crate::application::parking_allocator::{AllocationView, AssignmentView, SlotView};
use crate::application::parking_cells;
use crate::application::parking_placement;
use crate::application::sub_screens;
use crate::application::main_placement;
use crate::application::switch_coordinator;
use crate::application::switched;
use crate::application::window_ops::WindowCall;
use crate::application::workset_service;
use crate::domain::config::AppConfig;
use crate::domain::monitor::MonitorInfo;
use crate::domain::placement::{PixelRect, SavedShowState};
use crate::domain::workset::{ManagedWindow, ParkingPolicy, Workset};
use crate::ids::Uuid;
use crate::windowing::enumerate::TopLevelWindow;
use crate::windowing::matcher::MatchView;

verus! {

// ---------------------------------------------------------------------------
// Leaving
// ---------------------------------------------------------------------------

/// How a window is shown once it has left: at its place, or minimized where it has none. One that
/// could not be read is as it was.
pub open spec fn has_left(
    now: Shown,
    before: Shown,
    reading: Reading,
    rects: Map<isize, PixelRect>,
    hwnd: isize,
) -> bool {
    if reading.state is None || reading.rect is None {
        now == before
    } else if rects.contains_key(hwnd) {
        now == (Shown { rect: rects[hwnd], state: SavedShowState::Normal })
    } else {
        now.state == SavedShowState::Minimized
    }
}

proof fn lemma_emptying_calls(
    h: isize,
    reading: Reading,
    rects: Map<isize, PixelRect>,
    fullscreen: Set<isize>,
    s: Shown,
    other: isize,
)
    ensures
        has_left(
            effects::after(s, h, empty_main::emptying_calls(h, reading, rects, fullscreen)),
            s,
            reading,
            rects,
            h,
        ),
        other != h ==> effects::all_leave_alone(
            empty_main::emptying_calls(h, reading, rects, fullscreen),
            other,
        ),
        empty_main::emptying_calls(h, reading, rects, fullscreen).contains(
            WindowCall::ShowState { hwnd: h, found: reading.state },
        ),
        reading.state is Some ==> empty_main::emptying_calls(h, reading, rects, fullscreen).contains(
            WindowCall::NormalRect { hwnd: h, found: reading.rect },
        ),
        empty_main::emptying_calls(h, reading, rects, fullscreen).contains(
            WindowCall::FullscreenKeys { hwnd: h, refocus: None },
        ) <==> reading.state is Some && reading.rect is Some && rects.contains_key(h)
            && fullscreen.contains(h),
{
    let calls = empty_main::emptying_calls(h, reading, rects, fullscreen);
    let asked = WindowCall::ShowState { hwnd: h, found: reading.state };
    let told = WindowCall::NormalRect { hwnd: h, found: reading.rect };
    let none = Seq::<WindowCall>::empty();
    effects::lemma_after_push(s, h, none, asked);
    effects::lemma_after_push(s, h, none.push(asked), told);
    assert(calls[0] == asked);
    if reading.state is None {
        assert(calls =~= none.push(asked));
    } else {
        assert(calls[1] == told);
        let both = none.push(asked).push(told);
        if reading.rect is None {
            assert(calls =~= both);
        } else {
            let leave = empty_main::leaving_calls(h, rects, fullscreen);
            assert(calls =~= both + leave);
            effects::lemma_after_joined(s, h, both, leave);
            effects::lemma_after_push(s, h, none, leave[0]);
            assert(leave =~= none.push(leave[0]) || leave =~= none.push(leave[0]).push(leave[1]));
            if leave.len() == 2 {
                effects::lemma_after_push(s, h, none.push(leave[0]), leave[1]);
                assert(calls[3] == leave[1]);
            }
            assert(calls[2] == leave[0]);
        }
    }
}

/// Every window that could be read leaves for its place, or is minimized where it has none; one that
/// could not be read is left as it is. What was read is what the desktop told.
pub proof fn law_every_window_leaves(
    windows: Seq<TopLevelWindow>,
    readings: Seq<Reading>,
    rects: Map<isize, PixelRect>,
    fullscreen: Set<isize>,
    n: nat,
    i: int,
    s: Shown,
)
    requires
        0 <= i < n <= windows.len(),
        readings.len() == windows.len(),
        forall|j: int| 0 <= j < n && j != i ==> (#[trigger] windows[j]).hwnd != windows[i].hwnd,
    ensures
        ({
            let h = windows[i].hwnd;
            let calls = empty_main::all_emptying_calls(windows, readings, rects, fullscreen, n);
            &&& has_left(effects::after(s, h, calls), s, readings[i], rects, h)
            &&& calls.contains(WindowCall::ShowState { hwnd: h, found: readings[i].state })
            &&& readings[i].state is Some ==> calls.contains(
                WindowCall::NormalRect { hwnd: h, found: readings[i].rect },
            )
            &&& readings[i].state is Some && readings[i].rect is Some && rects.contains_key(h)
                && fullscreen.contains(h) ==> calls.contains(
                WindowCall::FullscreenKeys { hwnd: h, refocus: None },
            )
        }),
    decreases n,
{
    let h = windows[i].hwnd;
    let m = (n - 1) as nat;
    let before = empty_main::all_emptying_calls(windows, readings, rects, fullscreen, m);
    let last = empty_main::emptying_calls(
        windows[n - 1].hwnd,
        readings[n - 1],
        rects,
        fullscreen,
    );
    let t = effects::after(s, h, before);
    effects::lemma_after_joined(s, h, before, last);
    lemma_emptying_calls(windows[n - 1].hwnd, readings[n - 1], rects, fullscreen, t, h);
    if i < n - 1 {
        law_every_window_leaves(windows, readings, rects, fullscreen, m, i, s);
        assert(windows[n - 1].hwnd != h);
        effects::lemma_left_alone(t, h, last);
    } else {
        lemma_others_leave(windows, readings, rects, fullscreen, m, h);
        effects::lemma_left_alone(s, h, before);
    }
    effects::lemma_contained_in_join(
        before,
        last,
        WindowCall::ShowState { hwnd: h, found: readings[i].state },
    );
    if readings[i].state is Some {
        effects::lemma_contained_in_join(
            before,
            last,
            WindowCall::NormalRect { hwnd: h, found: readings[i].rect },
        );
        if readings[i].rect is Some && rects.contains_key(h) && fullscreen.contains(h) {
            effects::lemma_contained_in_join(
                before,
                last,
                WindowCall::FullscreenKeys { hwnd: h, refocus: None },
            );
        }
    }
}

proof fn lemma_others_leave(
    windows: Seq<TopLevelWindow>,
    readings: Seq<Reading>,
    rects: Map<isize, PixelRect>,
    fullscreen: Set<isize>,
    n: nat,
    h: isize,
)
    requires
        n <= windows.len(),
        forall|j: int| 0 <= j < n ==> (#[trigger] windows[j]).hwnd != h,
    ensures
        effects::all_leave_alone(
            empty_main::all_emptying_calls(windows, readings, rects, fullscreen, n),
            h,
        ),
    decreases n,
{
    if n > 0 {
        lemma_others_leave(windows, readings, rects, fullscreen, (n - 1) as nat, h);
        let w = windows[n - 1].hwnd;
        let s = Shown {
            rect: PixelRect { x: 0, y: 0, width: 0, height: 0 },
            state: SavedShowState::Normal,
        };
        lemma_emptying_calls(w, readings[n - 1], rects, fullscreen, s, h);
        effects::lemma_joined_leave_alone(
            empty_main::all_emptying_calls(windows, readings, rects, fullscreen, (n - 1) as nat),
            empty_main::emptying_calls(w, readings[n - 1], rects, fullscreen),
            h,
        );
    }
}

proof fn lemma_attempt_calls(
    h: isize,
    attempt: Attempt,
    rects: Map<isize, PixelRect>,
    fullscreen: Set<isize>,
    s: Shown,
    other: isize,
)
    ensures
        ({
            let now = effects::after(
                s,
                h,
                empty_main::attempt_calls(h, attempt, rects, fullscreen),
            );
            if attempt.reading.state is None || attempt.reading.rect is None {
                now == s
            } else if rects.contains_key(h) && attempt.moved {
                now == (Shown { rect: rects[h], state: SavedShowState::Normal })
            } else {
                now.state == SavedShowState::Minimized
            }
        }),
        other != h ==> effects::all_leave_alone(
            empty_main::attempt_calls(h, attempt, rects, fullscreen),
            other,
        ),
{
    let calls = empty_main::attempt_calls(h, attempt, rects, fullscreen);
    let asked = WindowCall::ShowState { hwnd: h, found: attempt.reading.state };
    let told = WindowCall::NormalRect { hwnd: h, found: attempt.reading.rect };
    let none = Seq::<WindowCall>::empty();
    effects::lemma_after_push(s, h, none, asked);
    effects::lemma_after_push(s, h, none.push(asked), told);
    if attempt.reading.state is None {
        assert(calls =~= none.push(asked));
    } else {
        let both = none.push(asked).push(told);
        if attempt.reading.rect is None {
            assert(calls =~= both);
        } else {
            let leave = empty_main::moving_calls(h, attempt.moved, rects, fullscreen);
            assert(calls =~= both + leave);
            effects::lemma_after_joined(s, h, both, leave);
            effects::lemma_after_push(s, h, none, leave[0]);
            if rects.contains_key(h) {
                let moves = seq![(h, rects[h])];
                assert(moves[0] == (h, rects[h]));
                effects::lemma_moved_once(moves, 0, s.rect);
                effects::lemma_after_push(s, h, none.push(leave[0]), leave[1]);
                let two = none.push(leave[0]).push(leave[1]);
                if leave.len() == 2 {
                    assert(leave =~= two);
                } else {
                    assert(leave =~= two.push(leave[2]));
                    effects::lemma_after_push(s, h, two, leave[2]);
                }
            } else {
                assert(leave =~= none.push(leave[0]));
            }
        }
    }
}

/// Every ticked window that could be read leaves for its place, and is minimized where it has none
/// or cannot be moved; one that could not be read is left as it is.
pub proof fn law_every_ticked_window_leaves(
    windows: Seq<TopLevelWindow>,
    attempts: Seq<Attempt>,
    rects: Map<isize, PixelRect>,
    fullscreen: Set<isize>,
    n: nat,
    i: int,
    s: Shown,
)
    requires
        0 <= i < n <= windows.len(),
        attempts.len() == windows.len(),
        forall|j: int| 0 <= j < n && j != i ==> (#[trigger] windows[j]).hwnd != windows[i].hwnd,
    ensures
        ({
            let h = windows[i].hwnd;
            let now = effects::after(
                s,
                h,
                empty_main::all_attempt_calls(windows, attempts, rects, fullscreen, n),
            );
            if attempts[i].reading.state is None || attempts[i].reading.rect is None {
                now == s
            } else if rects.contains_key(h) && attempts[i].moved {
                now == (Shown { rect: rects[h], state: SavedShowState::Normal })
            } else {
                now.state == SavedShowState::Minimized
            }
        }),
    decreases n,
{
    let h = windows[i].hwnd;
    let m = (n - 1) as nat;
    let before = empty_main::all_attempt_calls(windows, attempts, rects, fullscreen, m);
    let last = empty_main::attempt_calls(
        windows[n - 1].hwnd,
        attempts[n - 1],
        rects,
        fullscreen,
    );
    let t = effects::after(s, h, before);
    effects::lemma_after_joined(s, h, before, last);
    lemma_attempt_calls(windows[n - 1].hwnd, attempts[n - 1], rects, fullscreen, t, h);
    if i < n - 1 {
        law_every_ticked_window_leaves(windows, attempts, rects, fullscreen, m, i, s);
        assert(windows[n - 1].hwnd != h);
        effects::lemma_left_alone(t, h, last);
    } else {
        lemma_others_attempted(windows, attempts, rects, fullscreen, m, h);
        effects::lemma_left_alone(s, h, before);
    }
}

proof fn lemma_others_attempted(
    windows: Seq<TopLevelWindow>,
    attempts: Seq<Attempt>,
    rects: Map<isize, PixelRect>,
    fullscreen: Set<isize>,
    n: nat,
    h: isize,
)
    requires
        n <= windows.len(),
        forall|j: int| 0 <= j < n ==> (#[trigger] windows[j]).hwnd != h,
    ensures
        effects::all_leave_alone(
            empty_main::all_attempt_calls(windows, attempts, rects, fullscreen, n),
            h,
        ),
    decreases n,
{
    if n > 0 {
        lemma_others_attempted(windows, attempts, rects, fullscreen, (n - 1) as nat, h);
        let w = windows[n - 1].hwnd;
        let s = Shown {
            rect: PixelRect { x: 0, y: 0, width: 0, height: 0 },
            state: SavedShowState::Normal,
        };
        lemma_attempt_calls(w, attempts[n - 1], rects, fullscreen, s, h);
        effects::lemma_joined_leave_alone(
            empty_main::all_attempt_calls(windows, attempts, rects, fullscreen, (n - 1) as nat),
            empty_main::attempt_calls(w, attempts[n - 1], rects, fullscreen),
            h,
        );
    }
}

// ---------------------------------------------------------------------------
// Coming back
// ---------------------------------------------------------------------------

/// Every window that could be read has an entry with the place and the state that were read.
pub proof fn law_entries_hold_what_was_read(
    windows: Seq<TopLevelWindow>,
    readings: Seq<Reading>,
    n: nat,
    i: int,
) -> (k: int)
    requires
        0 <= i < n <= windows.len(),
        readings.len() == windows.len(),
        readings[i].state is Some,
        readings[i].rect is Some,
    ensures
        ({
            let entries = empty_main::undo_entries(windows, readings, n);
            &&& 0 <= k < entries.len()
            &&& entries[k].hwnd == windows[i].hwnd
            &&& entries[k].process_id == windows[i].process_id
            &&& entries[k].before_rect == readings[i].rect->0
            &&& entries[k].before_show_state == readings[i].state->0
        }),
    decreases n,
{
    let before = empty_main::undo_entries(windows, readings, (n - 1) as nat);
    if i < n - 1 {
        law_entries_hold_what_was_read(windows, readings, (n - 1) as nat, i)
    } else {
        before.len() as int
    }
}

/// Every entry is that of a window that could be read.
proof fn lemma_entry_origin(
    windows: Seq<TopLevelWindow>,
    readings: Seq<Reading>,
    n: nat,
    k: int,
) -> (i: int)
    requires
        n <= windows.len(),
        0 <= k < empty_main::undo_entries(windows, readings, n).len(),
    ensures
        0 <= i < n,
        empty_main::undo_entries(windows, readings, n)[k].hwnd == windows[i].hwnd,
    decreases n,
{
    let before = empty_main::undo_entries(windows, readings, (n - 1) as nat);
    if k < before.len() {
        lemma_entry_origin(windows, readings, (n - 1) as nat, k)
    } else {
        n - 1
    }
}

proof fn lemma_putting_back(e: UndoEntry, moved: bool, s: Shown, other: isize)
    ensures
        moved ==> effects::after(s, e.hwnd, empty_main::putting_back(e, moved)) == (Shown {
            rect: e.before_rect,
            state: e.before_show_state,
        }),
        other != e.hwnd ==> effects::all_leave_alone(empty_main::putting_back(e, moved), other),
        empty_main::putting_back(e, moved).contains(
            WindowCall::BatchMove { moves: seq![(e.hwnd, e.before_rect)], done: moved },
        ),
{
    let calls = empty_main::putting_back(e, moved);
    let none = Seq::<WindowCall>::empty();
    let moves = seq![(e.hwnd, e.before_rect)];
    assert(moves[0] == (e.hwnd, e.before_rect));
    assert(calls[1] == WindowCall::BatchMove { moves, done: moved });
    effects::lemma_moved_once(moves, 0, s.rect);
    effects::lemma_after_push(s, e.hwnd, none, calls[0]);
    effects::lemma_after_push(s, e.hwnd, none.push(calls[0]), calls[1]);
    let two = none.push(calls[0]).push(calls[1]);
    if calls.len() == 2 {
        assert(calls =~= two);
    } else {
        assert(calls =~= two.push(calls[2]));
        effects::lemma_after_push(s, e.hwnd, two, calls[2]);
    }
}

/// A window that is put back, and can be moved, stands where it was and as it was, unless a later
/// entry names it too; and every window is tried.
pub proof fn law_putting_back_restores(
    entries: Seq<UndoEntry>,
    moved: Seq<bool>,
    n: nat,
    i: int,
    s: Shown,
)
    requires
        0 <= i < n <= entries.len(),
        moved.len() == entries.len(),
        forall|j: int| i < j < n ==> (#[trigger] entries[j]).hwnd != entries[i].hwnd,
    ensures
        moved[i] ==> effects::after(
            s,
            entries[i].hwnd,
            empty_main::all_putting_back(entries, moved, n),
        ) == (Shown { rect: entries[i].before_rect, state: entries[i].before_show_state }),
        empty_main::all_putting_back(entries, moved, n).contains(
            WindowCall::BatchMove {
                moves: seq![(entries[i].hwnd, entries[i].before_rect)],
                done: moved[i],
            },
        ),
    decreases n,
{
    let h = entries[i].hwnd;
    let before = empty_main::all_putting_back(entries, moved, (n - 1) as nat);
    let last = empty_main::putting_back(entries[n - 1], moved[n - 1]);
    let t = effects::after(s, h, before);
    effects::lemma_after_joined(s, h, before, last);
    lemma_putting_back(entries[n - 1], moved[n - 1], t, h);
    if i < n - 1 {
        law_putting_back_restores(entries, moved, (n - 1) as nat, i, s);
        assert(entries[n - 1].hwnd != h);
        effects::lemma_left_alone(t, h, last);
    }
    effects::lemma_contained_in_join(
        before,
        last,
        WindowCall::BatchMove {
            moves: seq![(entries[i].hwnd, entries[i].before_rect)],
            done: moved[i],
        },
    );
}

/// Emptying the screen and putting the windows back leaves every window as it was: where the
/// desktop told rightly how it was shown, and it can be moved back.
pub proof fn law_putting_back_undoes_emptying(
    windows: Seq<TopLevelWindow>,
    readings: Seq<Reading>,
    rects: Map<isize, PixelRect>,
    fullscreen: Set<isize>,
    moved: Seq<bool>,
    i: int,
    s: Shown,
)
    requires
        readings.len() == windows.len(),
        0 <= i < windows.len(),
        forall|j: int|
            0 <= j < windows.len() && j != i ==> (#[trigger] windows[j]).hwnd != windows[i].hwnd,
        readings[i].state == Some(s.state),
        readings[i].rect == Some(s.rect),
        moved.len() == empty_main::undo_entries(windows, readings, windows.len()).len(),
        forall|k: int| 0 <= k < moved.len() ==> #[trigger] moved[k],
    ensures
        ({
            let entries = empty_main::undo_entries(windows, readings, windows.len());
            effects::after(
                s,
                windows[i].hwnd,
                empty_main::all_emptying_calls(
                    windows,
                    readings,
                    rects,
                    fullscreen,
                    windows.len(),
                ) + empty_main::all_putting_back(entries, moved, entries.len()),
            ) == s
        }),
{
    let n = windows.len();
    let h = windows[i].hwnd;
    let entries = empty_main::undo_entries(windows, readings, n);
    let away = empty_main::all_emptying_calls(windows, readings, rects, fullscreen, n);
    let back = empty_main::all_putting_back(entries, moved, entries.len());
    effects::lemma_after_joined(s, h, away, back);
    let k = law_entries_hold_what_was_read(windows, readings, n, i);
    assert forall|j: int| k < j < entries.len() implies (#[trigger] entries[j]).hwnd
        != entries[k].hwnd by {
        if entries[j].hwnd == entries[k].hwnd {
            lemma_one_entry(windows, readings, n, i, k, j);
        }
    }
    law_putting_back_restores(entries, moved, entries.len(), k, effects::after(s, h, away));
    assert(moved[k]);
}

/// A window that is listed once has one entry.
proof fn lemma_one_entry(
    windows: Seq<TopLevelWindow>,
    readings: Seq<Reading>,
    n: nat,
    i: int,
    a: int,
    b: int,
)
    requires
        n <= windows.len(),
        0 <= i < windows.len(),
        forall|j: int|
            0 <= j < windows.len() && j != i ==> (#[trigger] windows[j]).hwnd != windows[i].hwnd,
        0 <= a <= b < empty_main::undo_entries(windows, readings, n).len(),
        empty_main::undo_entries(windows, readings, n)[a].hwnd == windows[i].hwnd,
        empty_main::undo_entries(windows, readings, n)[b].hwnd == windows[i].hwnd,
    ensures
        a == b,
    decreases n,
{
    let before = empty_main::undo_entries(windows, readings, (n - 1) as nat);
    if b < before.len() {
        lemma_one_entry(windows, readings, (n - 1) as nat, i, a, b);
    } else {
        if n - 1 != i {
            assert(windows[n - 1].hwnd != windows[i].hwnd);
        }
        if a < before.len() {
            let j = lemma_entry_origin(windows, readings, (n - 1) as nat, a);
            assert(windows[j].hwnd != windows[i].hwnd);
        }
    }
}

// ---------------------------------------------------------------------------
// Where to
// ---------------------------------------------------------------------------

/// The windows of set `k` that were found, each with its place on the main screen.
pub open spec fn own(
    config: AppConfig,
    live: Seq<MonitorInfo>,
    decisions: Map<Uuid, MatchView>,
    k: int,
) -> Seq<(isize, PixelRect)> {
    empty_main::homed(
        config.worksets@[k].windows@,
        decisions,
        live,
        config.main_monitor_ids@,
    )
}

/// Window `i` of set `k` is none of any other set, and no other of its own.
pub open spec fn is_only(
    config: AppConfig,
    live: Seq<MonitorInfo>,
    decisions: Map<Uuid, MatchView>,
    k: int,
    i: int,
) -> bool {
    forall|l: int, j: int|
        0 <= l < config.worksets@.len() && 0 <= j < own(config, live, decisions, l).len() && (l
            != k || j != i) ==> (#[trigger] own(config, live, decisions, l)[j]).0 != own(
            config,
            live,
            decisions,
            k,
        )[i].0
}

/// The cell of the named area that a set names, if it names one and has a cell there.
pub open spec fn named_cell(config: AppConfig, live: Seq<MonitorInfo>, w: Workset) -> Option<
    PixelRect,
> {
    match w.parking_policy {
        ParkingPolicy::SubScreen { sub_screen_id } => match switch_coordinator::area_with_id(
            config.sub_screens@,
            sub_screen_id,
        ) {
            Some(sub) => sub_screens::slot_rect_of(sub, config.worksets@, w.id, live),
            None => None,
        },
        _ => None,
    }
}

/// The set fills its named area: it has it to itself, and it or the area asks for full screen.
pub open spec fn fills_its_area(config: AppConfig, w: Workset) -> bool {
    match w.parking_policy {
        ParkingPolicy::SubScreen { sub_screen_id } => {
            &&& sub_screens::sharers(config.worksets@, sub_screen_id).len() <= 1
            &&& w.fullscreen_when_parked || (switch_coordinator::area_with_id(
                config.sub_screens@,
                sub_screen_id,
            ) matches Some(sub) && sub.fullscreen)
        },
        _ => false,
    }
}

proof fn lemma_seated_other(
    before: Emptying,
    windows: Seq<(isize, PixelRect)>,
    cells: Seq<PixelRect>,
    sub: Uuid,
    fill: bool,
    n: nat,
    h: isize,
)
    requires
        n <= windows.len(),
        forall|j: int| 0 <= j < n ==> (#[trigger] windows[j]).0 != h,
    ensures
        ({
            let now = empty_main::seated(before, windows, cells, sub, fill, n);
            &&& now.rects.contains_key(h) == before.rects.contains_key(h)
            &&& before.rects.contains_key(h) ==> now.rects[h] == before.rects[h]
            &&& now.fullscreen.contains(h) == before.fullscreen.contains(h)
            &&& now.general == before.general
        }),
    decreases n,
{
    if n > 0 {
        lemma_seated_other(before, windows, cells, sub, fill, (n - 1) as nat, h);
        assert(windows[n - 1].0 != h);
    }
}

proof fn lemma_seated_own(
    before: Emptying,
    windows: Seq<(isize, PixelRect)>,
    cells: Seq<PixelRect>,
    sub: Uuid,
    fill: bool,
    n: nat,
    i: int,
)
    requires
        0 <= i < n <= windows.len(),
        forall|j: int|
            0 <= j < windows.len() && j != i ==> (#[trigger] windows[j]).0 != windows[i].0,
        !before.rects.contains_key(windows[i].0),
        !before.fullscreen.contains(windows[i].0),
    ensures
        ({
            let now = empty_main::seated(before, windows, cells, sub, fill, n);
            let h = windows[i].0;
            let large = i < cells.len() && cells[i].width >= 120 && cells[i].height >= 68;
            &&& now.rects.contains_key(h) == large
            &&& large ==> now.rects[h] == cells[i]
            &&& now.fullscreen.contains(h) == (large && fill)
        }),
    decreases n,
{
    let m = (n - 1) as nat;
    if i < n - 1 {
        lemma_seated_own(before, windows, cells, sub, fill, m, i);
        assert(windows[n - 1].0 != windows[i].0);
    } else {
        lemma_seated_other(before, windows, cells, sub, fill, m, windows[i].0);
        if i < cells.len() {
            switched::lemma_share(windows[i].1, cells[i]);
        }
    }
}

/// What the plan says of window `i` of set `k` once the first `n` sets are planned.
proof fn lemma_planned(
    config: AppConfig,
    live: Seq<MonitorInfo>,
    decisions: Map<Uuid, MatchView>,
    n: nat,
    k: int,
    i: int,
)
    requires
        n <= config.worksets@.len(),
        0 <= k < config.worksets@.len(),
        0 <= i < own(config, live, decisions, k).len(),
        is_only(config, live, decisions, k, i),
    ensures
        ({
            let p = empty_main::sets_planned(config, live, decisions, n);
            let w = config.worksets@[k];
            let ws = own(config, live, decisions, k);
            let h = ws[i].0;
            let cell = named_cell(config, live, w);
            let cells = parking_cells::cells_for(cell->0, ws.len());
            let large = k < n && cell is Some && i < cells.len() && cells[i].width >= 120
                && cells[i].height >= 68;
            &&& p.rects.contains_key(h) == large
            &&& large ==> p.rects[h] == cells[i]
            &&& p.fullscreen.contains(h) == (large && fills_its_area(config, w))
        }),
    decreases n,
{
    if n > 0 {
        let m = (n - 1) as nat;
        lemma_planned(config, live, decisions, m, k, i);
        let b = empty_main::sets_planned(config, live, decisions, m);
        let w = config.worksets@[n - 1];
        let ws = own(config, live, decisions, n - 1);
        let h = own(config, live, decisions, k)[i].0;
        if let ParkingPolicy::SubScreen { sub_screen_id } = w.parking_policy {
            if let Some(cell) = empty_main::area_cell(config, w, sub_screen_id, live) {
                let cells = parking_cells::cells_for(cell, ws.len());
                let fill = empty_main::fills_alone(config, w, sub_screen_id);
                if k == n - 1 {
                    assert forall|j: int| 0 <= j < ws.len() && j != i implies (#[trigger] ws[j]).0
                        != ws[i].0 by {
                        assert(own(config, live, decisions, k)[j].0 != h);
                    }
                    lemma_seated_own(b, ws, cells, sub_screen_id, fill, ws.len(), i);
                } else {
                    assert forall|j: int| 0 <= j < ws.len() implies (#[trigger] ws[j]).0 != h by {
                        assert(own(config, live, decisions, n - 1)[j].0 != h);
                    }
                    lemma_seated_other(b, ws, cells, sub_screen_id, fill, ws.len(), h);
                }
            }
        }
    }
}

/// Where a window without a named area is listed to be dealt out.
proof fn lemma_listed_general(
    config: AppConfig,
    live: Seq<MonitorInfo>,
    decisions: Map<Uuid, MatchView>,
    n: nat,
    k: int,
    i: int,
) -> (g: int)
    requires
        n <= config.worksets@.len(),
        0 <= k < n,
        0 <= i < own(config, live, decisions, k).len(),
        !(config.worksets@[k].parking_policy is SubScreen),
    ensures
        ({
            let general = empty_main::sets_planned(config, live, decisions, n).general;
            0 <= g < general.len() && general[g] == own(config, live, decisions, k)[i]
        }),
    decreases n,
{
    let m = (n - 1) as nat;
    let b = empty_main::sets_planned(config, live, decisions, m);
    let w = config.worksets@[n - 1];
    let ws = own(config, live, decisions, n - 1);
    if k < n - 1 {
        let g = lemma_listed_general(config, live, decisions, m, k, i);
        if let ParkingPolicy::SubScreen { sub_screen_id } = w.parking_policy {
            if let Some(cell) = empty_main::area_cell(config, w, sub_screen_id, live) {
                lemma_seated_general(
                    b,
                    ws,
                    parking_cells::cells_for(cell, ws.len()),
                    sub_screen_id,
                    empty_main::fills_alone(config, w, sub_screen_id),
                    ws.len(),
                );
            }
        }
        g
    } else {
        b.general.len() + i
    }
}

proof fn lemma_seated_general(
    before: Emptying,
    windows: Seq<(isize, PixelRect)>,
    cells: Seq<PixelRect>,
    sub: Uuid,
    fill: bool,
    n: nat,
)
    ensures
        empty_main::seated(before, windows, cells, sub, fill, n).general == before.general,
    decreases n,
{
    if n > 0 {
        lemma_seated_general(before, windows, cells, sub, fill, (n - 1) as nat);
    }
}

/// Windows that are dealt out are listed to be.
proof fn lemma_general_origin(
    config: AppConfig,
    live: Seq<MonitorInfo>,
    decisions: Map<Uuid, MatchView>,
    n: nat,
    g: int,
) -> (r: (int, int))
    requires
        n <= config.worksets@.len(),
        0 <= g < empty_main::sets_planned(config, live, decisions, n).general.len(),
    ensures
        0 <= r.0 < n,
        0 <= r.1 < own(config, live, decisions, r.0).len(),
        !(config.worksets@[r.0].parking_policy is SubScreen),
        empty_main::sets_planned(config, live, decisions, n).general[g] == own(
            config,
            live,
            decisions,
            r.0,
        )[r.1],
    decreases n,
{
    let m = (n - 1) as nat;
    let b = empty_main::sets_planned(config, live, decisions, m);
    let w = config.worksets@[n - 1];
    let ws = own(config, live, decisions, n - 1);
    if let ParkingPolicy::SubScreen { sub_screen_id } = w.parking_policy {
        if let Some(cell) = empty_main::area_cell(config, w, sub_screen_id, live) {
            lemma_seated_general(
                b,
                ws,
                parking_cells::cells_for(cell, ws.len()),
                sub_screen_id,
                empty_main::fills_alone(config, w, sub_screen_id),
                ws.len(),
            );
        }
    }
    if g < b.general.len() {
        lemma_general_origin(config, live, decisions, m, g)
    } else {
        (n - 1, g - b.general.len())
    }
}

proof fn lemma_spread_out_other(
    rects: Map<isize, PixelRect>,
    general: Seq<(isize, PixelRect)>,
    dealt: Seq<(isize, PixelRect)>,
    n: nat,
    h: isize,
)
    requires
        n <= dealt.len(),
        forall|d: int| 0 <= d < n ==> (#[trigger] dealt[d]).0 != h,
    ensures
        ({
            let now = empty_main::spread_out(rects, general, dealt, n);
            &&& now.contains_key(h) == rects.contains_key(h)
            &&& rects.contains_key(h) ==> now[h] == rects[h]
        }),
    decreases n,
{
    if n > 0 {
        lemma_spread_out_other(rects, general, dealt, (n - 1) as nat, h);
        assert(dealt[n - 1].0 != h);
    }
}

proof fn lemma_home_listed(windows: Seq<(isize, PixelRect)>, h: isize, g: int)
    requires
        0 <= g < windows.len(),
        windows[g].0 == h,
    ensures
        empty_main::home_of(windows, h) is Some,
    decreases windows.len(),
{
    if windows.last().0 != h {
        lemma_home_listed(windows.drop_last(), h, g);
    }
}

proof fn lemma_spread_out_own(
    rects: Map<isize, PixelRect>,
    general: Seq<(isize, PixelRect)>,
    dealt: Seq<(isize, PixelRect)>,
    n: nat,
    d: int,
)
    requires
        0 <= d < n <= dealt.len(),
        forall|e: int| d < e < n ==> (#[trigger] dealt[e]).0 != dealt[d].0,
        empty_main::home_of(general, dealt[d].0) is Some,
    ensures
        ({
            let now = empty_main::spread_out(rects, general, dealt, n);
            let (h, cell) = dealt[d];
            cell.width >= 120 && cell.height >= 68 ==> now.contains_key(h) && now[h] == cell
        }),
    decreases n,
{
    if d < n - 1 {
        lemma_spread_out_own(rects, general, dealt, (n - 1) as nat, d);
        assert(dealt[n - 1].0 != dealt[d].0);
    } else {
        switched::lemma_share(empty_main::home_of(general, dealt[d].0)->0, dealt[d].1);
    }
}

/// The handles that cells are dealt to are those of windows without a named area.
proof fn lemma_dealt_origin(
    config: AppConfig,
    live: Seq<MonitorInfo>,
    decisions: Map<Uuid, MatchView>,
    d: int,
) -> (g: int)
    requires
        ({
            let p = empty_main::sets_planned(config, live, decisions, config.worksets@.len());
            0 <= d < empty_main::dealt_out(config, live, p).len()
        }),
    ensures
        ({
            let p = empty_main::sets_planned(config, live, decisions, config.worksets@.len());
            0 <= g < p.general.len() && p.general[g].0 == empty_main::dealt_out(
                config,
                live,
                p,
            )[d].0
        }),
{
    let p = empty_main::sets_planned(config, live, decisions, config.worksets@.len());
    let screens = empty_main::general_screens(config, live, p.occupied, live.len());
    let windows = empty_main::handles_of(p.general);
    let (held, over) = parking_cells::spread(screens, windows);
    let dealt = empty_main::dealt_out(config, live, p);
    parking_cells::law_spread_keeps_capacity(screens, windows);
    journaled::lemma_placements_members(screens, held, screens.len());
    journaled::lemma_spread_members(screens, windows);
    assert(journaled::is_held(held, dealt[d].0));
    let (i, k) = choose|i: int, k: int|
        0 <= i < held.len() && 0 <= k < held[i].len() && #[trigger] held[i][k] == dealt[d].0;
    assert(windows.contains(held[i][k]));
    let g = choose|g: int| 0 <= g < windows.len() && windows[g] == dealt[d].0;
    assert(p.general[g].0 == windows[g]);
    g
}

/// A window of a set with a named area goes into its own share of the cell that the set has there,
/// and is sent the full-screen keys where the set fills the area; it has no place, and is minimized,
/// where the set has no cell, where there is no share for the window, or where that is smaller than
/// 120 by 68 pixels. This holds of every window that belongs to one set only.
pub proof fn law_windows_with_an_area_go_there(
    config: AppConfig,
    live: Seq<MonitorInfo>,
    decisions: Map<Uuid, MatchView>,
    k: int,
    i: int,
)
    requires
        0 <= k < config.worksets@.len(),
        0 <= i < own(config, live, decisions, k).len(),
        is_only(config, live, decisions, k, i),
        config.worksets@[k].parking_policy is SubScreen,
    ensures
        ({
            let (rects, fullscreen) = empty_main::destinations(config, live, decisions);
            let w = config.worksets@[k];
            let ws = own(config, live, decisions, k);
            let h = ws[i].0;
            let cell = named_cell(config, live, w);
            let cells = parking_cells::cells_for(cell->0, ws.len());
            let large = cell is Some && i < cells.len() && cells[i].width >= 120 && cells[i].height
                >= 68;
            &&& rects.contains_key(h) == large
            &&& large ==> rects[h] == cells[i]
            &&& fullscreen.contains(h) == (large && fills_its_area(config, w))
        }),
{
    let n = config.worksets@.len();
    let p = empty_main::sets_planned(config, live, decisions, n);
    let dealt = empty_main::dealt_out(config, live, p);
    let h = own(config, live, decisions, k)[i].0;
    lemma_planned(config, live, decisions, n, k, i);
    assert forall|d: int| 0 <= d < dealt.len() implies (#[trigger] dealt[d]).0 != h by {
        let g = lemma_dealt_origin(config, live, decisions, d);
        let (l, j) = lemma_general_origin(config, live, decisions, n, g);
        assert(own(config, live, decisions, l)[j].0 != h);
    }
    lemma_spread_out_other(p.rects, p.general, dealt, dealt.len(), h);
}

/// A window of any other set is dealt a cell of a monitor of general parking and goes there, unless
/// that cell is smaller than 120 by 68 pixels; it is dealt none only where all such monitors are
/// full: with six windows where a side has at least 2400 pixels, and with four otherwise.
pub proof fn law_other_windows_go_to_general_parking(
    config: AppConfig,
    live: Seq<MonitorInfo>,
    decisions: Map<Uuid, MatchView>,
    k: int,
    i: int,
)
    requires
        0 <= k < config.worksets@.len(),
        0 <= i < own(config, live, decisions, k).len(),
        !(config.worksets@[k].parking_policy is SubScreen),
    ensures
        ({
            let p = empty_main::sets_planned(config, live, decisions, config.worksets@.len());
            let rects = empty_main::destinations(config, live, decisions).0;
            let dealt = empty_main::dealt_out(config, live, p);
            let screens = empty_main::general_screens(config, live, p.occupied, live.len());
            let held = parking_cells::spread(screens, empty_main::handles_of(p.general)).0;
            let h = own(config, live, decisions, k)[i].0;
            ||| exists|d: int|
                {
                    &&& 0 <= d < dealt.len()
                    &&& (#[trigger] dealt[d]).0 == h
                    &&& dealt[d].1.width >= 120 && dealt[d].1.height >= 68 ==> rects.contains_key(h)
                        && rects[h] == dealt[d].1
                }
            ||| forall|x: int|
                0 <= x < screens.len() ==> (#[trigger] held[x]).len() == if screens[x].width
                    >= 2400 || screens[x].height >= 2400 {
                    6nat
                } else {
                    4nat
                }
        }),
{
    let n = config.worksets@.len();
    let p = empty_main::sets_planned(config, live, decisions, n);
    let dealt = empty_main::dealt_out(config, live, p);
    let screens = empty_main::general_screens(config, live, p.occupied, live.len());
    let windows = empty_main::handles_of(p.general);
    let (held, over) = parking_cells::spread(screens, windows);
    let h = own(config, live, decisions, k)[i].0;
    let g = lemma_listed_general(config, live, decisions, n, k, i);
    assert(windows[g] == h);
    parking_cells::law_spread_keeps_capacity(screens, windows);
    let (x, y) = evicted::lemma_spread_has(screens, windows, g);
    if x == -1 {
        parking_cells::law_overflow_only_when_full(screens, windows);
    } else {
        let at = evicted::lemma_placed_at(screens, held, screens.len(), x, y);
        let d = lemma_last_of(dealt, at);
        lemma_home_listed(p.general, h, g);
        lemma_spread_out_own(p.rects, p.general, dealt, dealt.len(), d);
        assert(dealt[d].0 == h);
    }
}

/// The last entry of a handle.
proof fn lemma_last_of(dealt: Seq<(isize, PixelRect)>, at: int) -> (d: int)
    requires
        0 <= at < dealt.len(),
    ensures
        at <= d < dealt.len(),
        dealt[d].0 == dealt[at].0,
        forall|e: int| d < e < dealt.len() ==> (#[trigger] dealt[e]).0 != dealt[d].0,
    decreases dealt.len() - at,
{
    if exists|e: int| at < e < dealt.len() && (#[trigger] dealt[e]).0 == dealt[at].0 {
        let e = choose|e: int| at < e < dealt.len() && (#[trigger] dealt[e]).0 == dealt[at].0;
        lemma_last_of(dealt, e)
    } else {
        at
    }
}

/// Nothing else has a place: whatever is given one is a window that was found, of a set with a
/// named area or of another one.
pub proof fn law_only_found_windows_have_a_place(
    config: AppConfig,
    live: Seq<MonitorInfo>,
    decisions: Map<Uuid, MatchView>,
    h: isize,
)
    requires
        empty_main::destinations(config, live, decisions).0.contains_key(h),
    ensures
        exists|k: int, i: int|
            0 <= k < config.worksets@.len() && 0 <= i < own(config, live, decisions, k).len() && (
            #[trigger] own(config, live, decisions, k)[i]).0 == h,
{
    let n = config.worksets@.len();
    let p = empty_main::sets_planned(config, live, decisions, n);
    let dealt = empty_main::dealt_out(config, live, p);
    if exists|d: int| 0 <= d < dealt.len() && (#[trigger] dealt[d]).0 == h {
        let d = choose|d: int| 0 <= d < dealt.len() && (#[trigger] dealt[d]).0 == h;
        let g = lemma_dealt_origin(config, live, decisions, d);
        let (l, j) = lemma_general_origin(config, live, decisions, n, g);
        assert(own(config, live, decisions, l)[j].0 == h);
    } else {
        lemma_spread_out_other(p.rects, p.general, dealt, dealt.len(), h);
        lemma_planned_origin(config, live, decisions, n, h);
    }
}

proof fn lemma_planned_origin(
    config: AppConfig,
    live: Seq<MonitorInfo>,
    decisions: Map<Uuid, MatchView>,
    n: nat,
    h: isize,
)
    requires
        n <= config.worksets@.len(),
        empty_main::sets_planned(config, live, decisions, n).rects.contains_key(h),
    ensures
        exists|k: int, i: int|
            0 <= k < n && 0 <= i < own(config, live, decisions, k).len() && (#[trigger] own(
                config,
                live,
                decisions,
                k,
            )[i]).0 == h,
    decreases n,
{
    let m = (n - 1) as nat;
    let b = empty_main::sets_planned(config, live, decisions, m);
    let ws = own(config, live, decisions, n - 1);
    let w = config.worksets@[n - 1];
    if exists|j: int| 0 <= j < ws.len() && (#[trigger] ws[j]).0 == h {
        let j = choose|j: int| 0 <= j < ws.len() && (#[trigger] ws[j]).0 == h;
        assert(own(config, live, decisions, n - 1)[j].0 == h);
    } else {
        if let ParkingPolicy::SubScreen { sub_screen_id } = w.parking_policy {
            if let Some(cell) = empty_main::area_cell(config, w, sub_screen_id, live) {
                lemma_seated_other(
                    b,
                    ws,
                    parking_cells::cells_for(cell, ws.len()),
                    sub_screen_id,
                    empty_main::fills_alone(config, w, sub_screen_id),
                    ws.len(),
                    h,
                );
            }
        }
        lemma_planned_origin(config, live, decisions, m, h);
        let (k, i) = choose|k: int, i: int|
            0 <= k < m && 0 <= i < own(config, live, decisions, k).len() && (#[trigger] own(
                config,
                live,
                decisions,
                k,
            )[i]).0 == h;
        assert(own(config, live, decisions, k)[i].0 == h);
    }
}

/// A monitor takes windows without a named area exactly where it is no main monitor, the user has
/// not excluded it, and no named area that took a window has it.
pub proof fn law_general_monitors_are_the_free_ones(
    config: AppConfig,
    occupied: Set<Uuid>,
    m: MonitorInfo,
)
    ensures
        empty_main::is_general(config, occupied, m) <==> {
            &&& forall|i: int|
                0 <= i < config.main_monitor_ids@.len() ==> (
                #[trigger] config.main_monitor_ids@[i])@ != m.device_name@
            &&& forall|i: int|
                0 <= i < config.monitors@.len() && config.monitors@[i].excluded ==> (
                #[trigger] config.monitors@[i]).stable_id@ != m.device_name@
            &&& forall|i: int, j: int|
                0 <= i < config.sub_screens@.len() && occupied.contains(config.sub_screens@[i].id)
                    && 0 <= j < config.sub_screens@[i].monitor_ids@.len() ==> (
                #[trigger] config.sub_screens@[i].monitor_ids@[j])@ != m.device_name@
        },
{
    let name = m.device_name@;
    if !empty_main::is_taken(config, occupied, name) {
        assert forall|i: int, j: int|
            0 <= i < config.sub_screens@.len() && occupied.contains(config.sub_screens@[i].id)
                && 0 <= j < config.sub_screens@[i].monitor_ids@.len() implies (
        #[trigger] config.sub_screens@[i].monitor_ids@[j])@ != name by {
            if config.sub_screens@[i].monitor_ids@[j]@ == name {
                assert(crate::application::monitor_resolution::names(
                    config.sub_screens@[i].monitor_ids@,
                    name,
                ));
            }
        }
    } else {
        let i = choose|i: int|
            0 <= i < config.sub_screens@.len() && occupied.contains(
                (#[trigger] config.sub_screens@[i]).id,
            ) && crate::application::monitor_resolution::names(
                config.sub_screens@[i].monitor_ids@,
                name,
            );
        let ids = config.sub_screens@[i].monitor_ids@;
        let j = choose|j: int| 0 <= j < ids.len() && (#[trigger] ids[j])@ == name;
        assert(config.sub_screens@[i].monitor_ids@[j]@ == name);
    }
}

// ---------------------------------------------------------------------------
// Set by set
// ---------------------------------------------------------------------------

/// The cell that a set goes to where all sets make room: its part of the named area that it names,
/// or the place that it is dealt, with every set that has a found window taking part and none taken
/// for the current one.
pub open spec fn cell_for(
    config: AppConfig,
    live: Seq<MonitorInfo>,
    decisions: Map<Uuid, MatchView>,
    slots: Map<Uuid, SlotView>,
    w: Workset,
) -> Option<PixelRect> {
    match w.parking_policy {
        ParkingPolicy::SubScreen { .. } => named_cell(config, live, w),
        _ => {
            let places = parking_allocator::allocation(
                AllocationView {
                    worksets: config.worksets@,
                    current: None,
                    fixed_slots: config.fixed_slots@,
                    main_monitor_ids: config.main_monitor_ids@,
                    live_monitors: live,
                    saved_monitors: config.monitors@,
                    sub_screen_monitor_ids: switch_coordinator::area_monitors(
                        config.sub_screens@,
                    ),
                    previous: slots,
                    with_windows: empty_main::sets_found(
                        config.worksets@,
                        decisions,
                        config.worksets@.len(),
                    ),
                },
            ).0;
            if places.contains_key(w.id) {
                match places[w.id] {
                    AssignmentView::Auto(_, rect) => Some(rect),
                    AssignmentView::Fixed(_, rect) => Some(rect),
                    AssignmentView::Minimized => None,
                }
            } else {
                None
            }
        },
    }
}

proof fn lemma_moved_in_other(
    before: (Map<isize, PixelRect>, Set<isize>),
    windows: Seq<(isize, PixelRect)>,
    targets: Seq<PixelRect>,
    fill: bool,
    n: nat,
    h: isize,
)
    requires
        n <= windows.len(),
        forall|j: int| 0 <= j < n ==> (#[trigger] windows[j]).0 != h,
    ensures
        ({
            let now = empty_main::moved_in(before, windows, targets, fill, n);
            &&& now.0.contains_key(h) == before.0.contains_key(h)
            &&& before.0.contains_key(h) ==> now.0[h] == before.0[h]
            &&& now.1.contains(h) == before.1.contains(h)
        }),
    decreases n,
{
    if n > 0 {
        lemma_moved_in_other(before, windows, targets, fill, (n - 1) as nat, h);
        assert(windows[n - 1].0 != h);
    }
}

proof fn lemma_moved_in_own(
    before: (Map<isize, PixelRect>, Set<isize>),
    windows: Seq<(isize, PixelRect)>,
    targets: Seq<PixelRect>,
    fill: bool,
    n: nat,
    i: int,
)
    requires
        0 <= i < n <= windows.len(),
        forall|j: int|
            0 <= j < windows.len() && j != i ==> (#[trigger] windows[j]).0 != windows[i].0,
        !before.1.contains(windows[i].0),
    ensures
        ({
            let now = empty_main::moved_in(before, windows, targets, fill, n);
            let h = windows[i].0;
            &&& now.0.contains_key(h)
            &&& now.0[h] == targets[i]
            &&& now.1.contains(h) == fill
        }),
    decreases n,
{
    let m = (n - 1) as nat;
    if i < n - 1 {
        lemma_moved_in_own(before, windows, targets, fill, m, i);
        assert(windows[n - 1].0 != windows[i].0);
    } else {
        lemma_moved_in_other(before, windows, targets, fill, m, windows[i].0);
    }
}

/// Where the sets leave one by one, the windows of a set keep their arrangement, shrunk into the cell
/// of the set, all of them or none: none where the set has no cell, or one of them would be smaller
/// than 120 by 68 pixels. Those of a set that is parked in full screen are sent the keys. This holds
/// of every window that belongs to one set only.
pub proof fn law_sets_keep_their_arrangement(
    config: AppConfig,
    live: Seq<MonitorInfo>,
    decisions: Map<Uuid, MatchView>,
    slots: Map<Uuid, SlotView>,
    k: int,
    i: int,
)
    requires
        0 <= k < config.worksets@.len(),
        0 <= i < own(config, live, decisions, k).len(),
        is_only(config, live, decisions, k, i),
    ensures
        ({
            let (rects, fullscreen) = empty_main::arranged_destinations(
                config,
                live,
                decisions,
                slots,
            );
            let w = config.worksets@[k];
            let ws = own(config, live, decisions, k);
            let h = ws[i].0;
            let cell = cell_for(config, live, decisions, slots, w);
            let shares = parking_placement::shrunk(empty_main::homes_of(ws), cell->0);
            let fits = cell is Some && forall|j: int|
                0 <= j < shares.len() ==> (#[trigger] shares[j]).width >= 120 && shares[j].height
                    >= 68;
            &&& rects.contains_key(h) == fits
            &&& fits ==> rects[h] == shares[i]
            &&& fullscreen.contains(h) == (fits && if w.parking_policy is SubScreen {
                fills_its_area(config, w)
            } else {
                w.fullscreen_when_parked
            })
        }),
{
    lemma_arranged(config, live, decisions, slots, config.worksets@.len(), k, i);
}

proof fn lemma_arranged(
    config: AppConfig,
    live: Seq<MonitorInfo>,
    decisions: Map<Uuid, MatchView>,
    slots: Map<Uuid, SlotView>,
    n: nat,
    k: int,
    i: int,
)
    requires
        n <= config.worksets@.len(),
        0 <= k < config.worksets@.len(),
        0 <= i < own(config, live, decisions, k).len(),
        is_only(config, live, decisions, k, i),
    ensures
        ({
            let with_windows = empty_main::sets_found(
                config.worksets@,
                decisions,
                config.worksets@.len(),
            );
            let places = parking_allocator::allocation(
                empty_main::dealing_to_all(config, live, with_windows, slots),
            ).0;
            let (rects, fullscreen) = empty_main::sets_arranged(
                config,
                live,
                decisions,
                places,
                n,
            );
            let w = config.worksets@[k];
            let ws = own(config, live, decisions, k);
            let h = ws[i].0;
            let cell = cell_for(config, live, decisions, slots, w);
            let shares = parking_placement::shrunk(empty_main::homes_of(ws), cell->0);
            let fits = k < n && cell is Some && forall|j: int|
                0 <= j < shares.len() ==> (#[trigger] shares[j]).width >= 120 && shares[j].height
                    >= 68;
            &&& rects.contains_key(h) == fits
            &&& fits ==> rects[h] == shares[i]
            &&& fullscreen.contains(h) == (fits && if w.parking_policy is SubScreen {
                fills_its_area(config, w)
            } else {
                w.fullscreen_when_parked
            })
        }),
    decreases n,
{
    if n > 0 {
        let m = (n - 1) as nat;
        lemma_arranged(config, live, decisions, slots, m, k, i);
        let with_windows = empty_main::sets_found(
            config.worksets@,
            decisions,
            config.worksets@.len(),
        );
        let places = parking_allocator::allocation(
            empty_main::dealing_to_all(config, live, with_windows, slots),
        ).0;
        let b = empty_main::sets_arranged(config, live, decisions, places, m);
        let w = config.worksets@[n - 1];
        let ws = own(config, live, decisions, n - 1);
        let h = own(config, live, decisions, k)[i].0;
        if let Some((cell, fill)) = empty_main::set_destination(config, live, places, w) {
            let targets = parking_placement::shrunk(empty_main::homes_of(ws), cell);
            if k == n - 1 {
                assert(cell_for(config, live, decisions, slots, w) == Some(cell));
                assert forall|j: int| 0 <= j < ws.len() && j != i implies (#[trigger] ws[j]).0
                    != ws[i].0 by {
                    assert(own(config, live, decisions, k)[j].0 != h);
                }
                if parking_placement::some_too_small(targets) {
                    let j = choose|j: int|
                        0 <= j < targets.len() && parking_placement::too_small(
                            #[trigger] targets[j],
                        );
                    assert(targets[j].width < 120 || targets[j].height < 68);
                } else {
                    assert forall|j: int| 0 <= j < targets.len() implies (
                    #[trigger] targets[j]).width >= 120 && targets[j].height >= 68 by {
                        assert(!parking_placement::too_small(targets[j]));
                    }
                    lemma_moved_in_own(b, ws, targets, fill, ws.len(), i);
                }
            } else {
                assert forall|j: int| 0 <= j < ws.len() implies (#[trigger] ws[j]).0 != h by {
                    assert(own(config, live, decisions, n - 1)[j].0 != h);
                }
                lemma_moved_in_other(b, ws, targets, fill, ws.len(), h);
            }
        }
    }
}

/// The windows of a set that take part are those that were found, each with the place that it was
/// registered at on the main screen; without a main screen none takes part.
pub proof fn law_found_windows_take_part(
    windows: Seq<ManagedWindow>,
    decisions: Map<Uuid, MatchView>,
    live: Seq<MonitorInfo>,
    main_ids: Seq<String>,
    h: isize,
    rect: PixelRect,
)
    ensures
        empty_main::homed(windows, decisions, live, main_ids).contains((h, rect)) <==> exists|i: int|
            0 <= i < windows.len() && workset_service::handle_of(
                decisions,
                (#[trigger] windows[i]).id,
            ) == Some(h) && (main_placement::restore_of(
                windows[i].main_placement,
                live,
                main_ids,
            ) matches Some(outcome) && outcome.rect == rect),
    decreases windows.len(),
{
    let all = empty_main::homed(windows, decisions, live, main_ids);
    if windows.len() > 0 {
        let rest = windows.drop_last();
        law_found_windows_take_part(rest, decisions, live, main_ids, h, rect);
        let before = empty_main::homed(rest, decisions, live, main_ids);
        let n = windows.len() - 1;
        assert(windows[n] == windows.last());
        if all.contains((h, rect)) {
            let k = choose|k: int| 0 <= k < all.len() && all[k] == (h, rect);
            if k < before.len() {
                assert(before[k] == (h, rect));
                let i = choose|i: int|
                    0 <= i < rest.len() && workset_service::handle_of(
                        decisions,
                        (#[trigger] rest[i]).id,
                    ) == Some(h) && (main_placement::restore_of(
                        rest[i].main_placement,
                        live,
                        main_ids,
                    ) matches Some(outcome) && outcome.rect == rect);
                assert(windows[i] == rest[i]);
            }
        }
        if exists|i: int|
            0 <= i < windows.len() && workset_service::handle_of(
                decisions,
                (#[trigger] windows[i]).id,
            ) == Some(h) && (main_placement::restore_of(
                windows[i].main_placement,
                live,
                main_ids,
            ) matches Some(outcome) && outcome.rect == rect) {
            let i = choose|i: int|
                0 <= i < windows.len() && workset_service::handle_of(
                    decisions,
                    (#[trigger] windows[i]).id,
                ) == Some(h) && (main_placement::restore_of(
                    windows[i].main_placement,
                    live,
                    main_ids,
                ) matches Some(outcome) && outcome.rect == rect);
            if i < n {
                assert(rest[i] == windows[i]);
                let k = choose|k: int| 0 <= k < before.len() && before[k] == (h, rect);
                assert(all[k] == (h, rect));
            } else {
                assert(all[before.len() as int] == (h, rect));
            }
        }
    }
}

/// The sets that take part in dealing out cells are those of which a window was found.
pub proof fn law_sets_with_found_windows_take_part(
    worksets: Seq<Workset>,
    decisions: Map<Uuid, MatchView>,
    n: nat,
    id: Uuid,
)
    requires
        n <= worksets.len(),
    ensures
        empty_main::sets_found(worksets, decisions, n).contains(id) <==> exists|k: int, i: int|
            0 <= k < n && worksets[k].id == id && 0 <= i < worksets[k].windows@.len()
                && workset_service::handle_of(
                decisions,
                (#[trigger] worksets[k].windows@[i]).id,
            ) is Some,
    decreases n,
{
    if n > 0 {
        let m = (n - 1) as nat;
        law_sets_with_found_windows_take_part(worksets, decisions, m, id);
        let w = worksets[m as int];
        if empty_main::some_found(w.windows@, decisions) && w.id == id {
            let i = choose|i: int|
                0 <= i < w.windows@.len() && workset_service::handle_of(
                    decisions,
                    (#[trigger] w.windows@[i]).id,
                ) is Some;
            assert(worksets[m as int].windows@[i] == w.windows@[i]);
        }
        if exists|k: int, i: int|
            0 <= k < n && worksets[k].id == id && 0 <= i < worksets[k].windows@.len()
                && workset_service::handle_of(
                decisions,
                (#[trigger] worksets[k].windows@[i]).id,
            ) is Some {
            let (k, i) = choose|k: int, i: int|
                0 <= k < n && worksets[k].id == id && 0 <= i < worksets[k].windows@.len()
                    && workset_service::handle_of(
                    decisions,
                    (#[trigger] worksets[k].windows@[i]).id,
                ) is Some;
            if k == m {
                assert(w.windows@[i] == worksets[k].windows@[i]);
            }
        }
    }
}

} // verus!
