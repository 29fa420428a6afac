//! Whatever a switch changes was written down before: a switch that breaks off can be undone.

use vstd::prelude::*;

use crate::application::parking_allocator;
use crate::application::parking_allocator::{AssignmentView, SlotView};
use crate::application::parking_cells;
use crate::application::switch_coordinator;
use crate::application::switch_coordinator::{
    ParkedSet, PendingSwitch, RequestView, Resolved,
};
use crate::application::window_ops::WindowCall;
use crate::domain::placement::PixelRect;
use crate::domain::runtime::JournalWindowEntry;
use crate::domain::workset::{ParkingPolicy, Workset};
use crate::ids::Uuid;
use crate::order;

verus! {

/// The window is one of these.
pub open spec fn is_among(ws: Seq<Resolved>, hwnd: isize) -> bool {
    exists|i: int| 0 <= i < ws.len() && (#[trigger] ws[i]).hwnd == hwnd
}

/// The call changes one of these windows, or none at all.
pub open spec fn changes_only(call: WindowCall, ws: Seq<Resolved>) -> bool {
    match call {
        WindowCall::Restore { hwnd } => is_among(ws, hwnd),
        WindowCall::Maximize { hwnd } => is_among(ws, hwnd),
        WindowCall::Minimize { hwnd } => is_among(ws, hwnd),
        WindowCall::SetPlacement { hwnd, .. } => is_among(ws, hwnd),
        WindowCall::FullscreenKeys { hwnd, .. } => is_among(ws, hwnd),
        WindowCall::ExitFullscreen { hwnd, .. } => is_among(ws, hwnd),
        WindowCall::BatchMove { moves, .. } => forall|i: int|
            0 <= i < moves.len() ==> is_among(ws, (#[trigger] moves[i]).0),
        WindowCall::ZOrderAfter { hwnd, .. } => is_among(ws, hwnd),
        WindowCall::Foreground { hwnd } => is_among(ws, hwnd),
        WindowCall::ShowState { .. } => true,
        WindowCall::NormalRect { .. } => true,
        WindowCall::Alive { .. } => true,
    }
}

pub open spec fn change_only(calls: Seq<WindowCall>, ws: Seq<Resolved>) -> bool {
    forall|i: int| 0 <= i < calls.len() ==> changes_only(#[trigger] calls[i], ws)
}

pub open spec fn all_among(handles: Seq<isize>, ws: Seq<Resolved>) -> bool {
    forall|i: int| 0 <= i < handles.len() ==> is_among(ws, #[trigger] handles[i])
}

proof fn lemma_more_windows(calls: Seq<WindowCall>, some: Seq<Resolved>, more: Seq<Resolved>)
    requires
        change_only(calls, some),
        forall|h: isize| is_among(some, h) ==> #[trigger] is_among(more, h),
    ensures
        change_only(calls, more),
{
    assert forall|i: int| 0 <= i < calls.len() implies changes_only(#[trigger] calls[i], more) by {
        assert(changes_only(calls[i], some));
    }
}

proof fn lemma_joined(a: Seq<WindowCall>, b: Seq<WindowCall>, ws: Seq<Resolved>)
    requires
        change_only(a, ws),
        change_only(b, ws),
    ensures
        change_only(a + b, ws),
{
    assert forall|i: int| 0 <= i < (a + b).len() implies changes_only(#[trigger] (a + b)[i], ws) by {
        if i < a.len() {
            assert((a + b)[i] == a[i]);
        } else {
            assert((a + b)[i] == b[i - a.len()]);
        }
    }
}

proof fn lemma_among_joined(a: Seq<Resolved>, b: Seq<Resolved>)
    ensures
        forall|h: isize| is_among(a, h) ==> #[trigger] is_among(a + b, h),
        forall|h: isize| is_among(b, h) ==> #[trigger] is_among(a + b, h),
{
    assert forall|h: isize| is_among(a, h) implies #[trigger] is_among(a + b, h) by {
        let i = choose|i: int| 0 <= i < a.len() && (#[trigger] a[i]).hwnd == h;
        assert((a + b)[i].hwnd == h);
    }
    assert forall|h: isize| is_among(b, h) implies #[trigger] is_among(a + b, h) by {
        let i = choose|i: int| 0 <= i < b.len() && (#[trigger] b[i]).hwnd == h;
        assert((a + b)[a.len() + i].hwnd == h);
    }
}

proof fn lemma_moved(req: RequestView, ws: Seq<Resolved>, area: PixelRect, n: nat)
    requires
        n <= ws.len(),
    ensures
        change_only(switch_coordinator::minimized_first(req, ws, area, n), ws),
        forall|i: int|
            0 <= i < switch_coordinator::moved_first(req, ws, area, n).len() ==> is_among(
                ws,
                (#[trigger] switch_coordinator::moved_first(req, ws, area, n)[i]).0,
            ),
    decreases n,
{
    if n > 0 {
        lemma_moved(req, ws, area, (n - 1) as nat);
        assert(is_among(ws, ws[n - 1].hwnd));
        let before = switch_coordinator::moved_first(req, ws, area, (n - 1) as nat);
        let now = switch_coordinator::moved_first(req, ws, area, n);
        assert forall|i: int| 0 <= i < now.len() implies is_among(ws, (#[trigger] now[i]).0) by {
            if i < before.len() {
                assert(now[i] == before[i]);
            }
        }
    }
}

proof fn lemma_parked_in(
    req: RequestView,
    ws: Seq<Resolved>,
    area: PixelRect,
    fullscreen: bool,
    slots: Map<Uuid, SlotView>,
    dealt: bool,
)
    ensures
        ({
            let p = switch_coordinator::parked_in(req, ws, area, fullscreen, slots, dealt);
            &&& change_only(p.calls, ws)
            &&& all_among(p.keys, ws)
        }),
{
    lemma_moved(req, ws, area, ws.len());
    let moves = switch_coordinator::moved_first(req, ws, area, ws.len());
    let fills = switch_coordinator::fill_calls(moves);
    assert forall|i: int| 0 <= i < fills.len() implies changes_only(#[trigger] fills[i], ws) by {
        assert(is_among(ws, moves[i].0));
    }
    lemma_joined(switch_coordinator::minimized_first(req, ws, area, ws.len()), fills, ws);
}

/// Parking a set changes its own windows only.
pub proof fn law_parking_changes_own_windows_only(
    req: RequestView,
    with_windows: Set<Uuid>,
    slots: Map<Uuid, SlotView>,
    w: Workset,
    ws: Seq<Resolved>,
)
    ensures
        ({
            let p = switch_coordinator::park_of(req, with_windows, slots, w, ws);
            &&& change_only(p.calls, ws)
            &&& all_among(p.keys, ws)
        }),
{
    let all = switch_coordinator::minimize_all(ws);
    assert forall|i: int| 0 <= i < all.len() implies changes_only(#[trigger] all[i], ws) by {
        assert(is_among(ws, ws[i].hwnd));
    }
    match w.parking_policy {
        ParkingPolicy::SubScreen { sub_screen_id } => {
            if let Some(sub) = switch_coordinator::area_with_id(req.sub_screens, sub_screen_id) {
                if let Some(rect) = crate::application::sub_screens::slot_rect_of(
                    sub,
                    req.worksets,
                    w.id,
                    req.live_monitors,
                ) {
                    lemma_parked_in(
                        req,
                        ws,
                        rect,
                        switch_coordinator::fills_area(req, w, sub_screen_id),
                        slots,
                        false,
                    );
                }
            }
        },
        _ => {
            let (places, dealt) = parking_allocator::allocation(
                switch_coordinator::dealing(req, with_windows, slots),
            );
            if places.contains_key(w.id) {
                match places[w.id] {
                    AssignmentView::Auto(_, rect) => {
                        lemma_parked_in(req, ws, rect, w.fullscreen_when_parked, dealt, true);
                    },
                    AssignmentView::Fixed(_, rect) => {
                        lemma_parked_in(req, ws, rect, w.fullscreen_when_parked, dealt, true);
                    },
                    AssignmentView::Minimized => {},
                }
            }
        },
    }
}

proof fn lemma_windows_of(sets: Seq<ParkedSet>, k: int)
    requires
        0 <= k < sets.len(),
    ensures
        forall|h: isize|
            is_among(sets[k].windows, h) ==> #[trigger] is_among(
                switch_coordinator::windows_of(sets),
                h,
            ),
    decreases sets.len(),
{
    let before = switch_coordinator::windows_of(sets.drop_last());
    lemma_among_joined(before, sets.last().windows);
    if k < sets.len() - 1 {
        lemma_windows_of(sets.drop_last(), k);
        assert(sets.drop_last()[k] == sets[k]);
        assert forall|h: isize| is_among(sets[k].windows, h) implies #[trigger] is_among(
            switch_coordinator::windows_of(sets),
            h,
        ) by {
            assert(is_among(before, h));
        }
    }
}

proof fn lemma_parked_upto(
    req: RequestView,
    with_windows: Set<Uuid>,
    slots: Map<Uuid, SlotView>,
    sets: Seq<ParkedSet>,
    n: nat,
)
    requires
        n <= sets.len(),
    ensures
        ({
            let p = switch_coordinator::parked_upto(req, with_windows, slots, sets, n);
            &&& change_only(p.calls, switch_coordinator::windows_of(sets))
            &&& all_among(p.keys, switch_coordinator::windows_of(sets))
        }),
    decreases n,
{
    let all = switch_coordinator::windows_of(sets);
    if n > 0 {
        lemma_parked_upto(req, with_windows, slots, sets, (n - 1) as nat);
        let b = switch_coordinator::parked_upto(req, with_windows, slots, sets, (n - 1) as nat);
        if b.ok {
            let set = sets[n - 1];
            let p = switch_coordinator::park_of(
                req,
                with_windows,
                b.slots,
                set.set,
                set.windows,
            );
            law_parking_changes_own_windows_only(
                req,
                with_windows,
                b.slots,
                set.set,
                set.windows,
            );
            lemma_windows_of(sets, n - 1);
            lemma_more_windows(p.calls, set.windows, all);
            lemma_joined(b.calls, p.calls, all);
            assert forall|i: int| 0 <= i < (b.keys + p.keys).len() implies is_among(
                all,
                #[trigger] (b.keys + p.keys)[i],
            ) by {
                if i < b.keys.len() {
                    assert(is_among(all, b.keys[i]));
                } else {
                    assert(is_among(set.windows, p.keys[i - b.keys.len()]));
                }
            }
        }
    }
}

pub proof fn lemma_spread_members(screens: Seq<PixelRect>, windows: Seq<isize>)
    ensures
        ({
            let (held, over) = parking_cells::spread(screens, windows);
            &&& forall|i: int, k: int|
                0 <= i < held.len() && 0 <= k < held[i].len() ==> windows.contains(
                    #[trigger] held[i][k],
                )
            &&& forall|k: int| 0 <= k < over.len() ==> windows.contains(#[trigger] over[k])
        }),
    decreases windows.len(),
{
    if windows.len() > 0 {
        let before = windows.drop_last();
        lemma_spread_members(screens, before);
        parking_cells::law_spread_keeps_capacity(screens, before);
        let (held, over) = parking_cells::spread(screens, before);
        parking_cells::lemma_best_screen(screens, held, screens.len());
        assert forall|w: isize| before.contains(w) implies windows.contains(w) by {
            let k = choose|k: int| 0 <= k < before.len() && before[k] == w;
            assert(windows[k] == w);
        }
        assert(windows.contains(windows.last()));
        let (now, left) = parking_cells::spread(screens, windows);
        assert forall|i: int, k: int| 0 <= i < now.len() && 0 <= k < now[i].len() implies
            windows.contains(#[trigger] now[i][k]) by {
            if i < held.len() && k < held[i].len() {
                assert(before.contains(held[i][k]));
            }
        }
        assert forall|k: int| 0 <= k < left.len() implies windows.contains(
            #[trigger] left[k],
        ) by {
            if k < over.len() {
                assert(before.contains(over[k]));
            }
        }
    }
}

/// The window is held by one of the screens.
pub open spec fn is_held(held: Seq<Seq<isize>>, hwnd: isize) -> bool {
    exists|i: int, k: int|
        0 <= i < held.len() && 0 <= k < held[i].len() && #[trigger] held[i][k] == hwnd
}

pub proof fn lemma_placements_members(screens: Seq<PixelRect>, held: Seq<Seq<isize>>, n: nat)
    requires
        n <= held.len(),
    ensures
        forall|j: int|
            0 <= j < parking_cells::placements_upto(screens, held, n).len() ==> is_held(
                held,
                (#[trigger] parking_cells::placements_upto(screens, held, n)[j]).0,
            ),
    decreases n,
{
    if n > 0 {
        lemma_placements_members(screens, held, (n - 1) as nat);
        let before = parking_cells::placements_upto(screens, held, (n - 1) as nat);
        let all = parking_cells::placements_upto(screens, held, n);
        assert forall|j: int| 0 <= j < all.len() implies is_held(held, (#[trigger] all[j]).0) by {
            if j < before.len() {
                assert(all[j] == before[j]);
            } else {
                assert(held[n - 1][j - before.len()] == all[j].0);
            }
        }
    }
}

/// Making room changes the windows that are moved out of the way only.
pub proof fn law_eviction_changes_evictees_only(req: RequestView, evictees: Seq<Resolved>)
    ensures
        change_only(switch_coordinator::eviction_calls(req, evictees), evictees),
{
    if evictees.len() > 0 {
        let screens = switch_coordinator::eviction_screens(req, req.live_monitors.len());
        let windows = switch_coordinator::resolved_handles(evictees);
        let (held, over) = parking_cells::spread(screens, windows);
        parking_cells::law_spread_keeps_capacity(screens, windows);
        lemma_spread_members(screens, windows);
        lemma_placements_members(screens, held, screens.len());
        let placed = parking_cells::placements_upto(screens, held, screens.len());
        let calls = switch_coordinator::eviction_calls(req, evictees);
        assert forall|h: isize| windows.contains(h) implies #[trigger] is_among(evictees, h) by {
            let k = choose|k: int| 0 <= k < windows.len() && windows[k] == h;
            assert(evictees[k].hwnd == h);
        }
        assert forall|j: int| 0 <= j < calls.len() implies changes_only(
            #[trigger] calls[j],
            evictees,
        ) by {
            if j < placed.len() {
                assert(calls[j] == switch_coordinator::eviction_call(req.live_windows, placed[j]));
                assert(is_held(held, placed[j].0));
                let (i, k) = choose|i: int, k: int|
                    0 <= i < held.len() && 0 <= k < held[i].len() && #[trigger] held[i][k]
                        == placed[j].0;
                assert(windows.contains(held[i][k]));
                assert(is_among(evictees, placed[j].0));
            } else {
                let h = over[j - placed.len()];
                assert(calls[j] == (WindowCall::Minimize { hwnd: h }));
                assert(windows.contains(h));
                assert(is_among(evictees, h));
            }
        }
    }
}

/// Bringing a set back changes its own windows, and those that are to be sent keys.
pub proof fn law_arrival_changes_target_only(
    req: RequestView,
    target: Workset,
    ws: Seq<Resolved>,
    keys: Seq<isize>,
    all: Seq<Resolved>,
)
    requires
        ws.len() <= usize::MAX,
        all_among(keys, all),
        forall|h: isize| is_among(ws, h) ==> #[trigger] is_among(all, h),
    ensures
        change_only(switch_coordinator::arrival_calls(req, target, ws, keys), all),
{
    let some = order::lemma_stable_order_exists(switch_coordinator::z_keys(ws));
    let o = switch_coordinator::by_height(ws);
    assert(order::is_stable_order(o, switch_coordinator::z_keys(ws)));
    let focus = switch_coordinator::top_handle(ws, o);
    let back = switch_coordinator::bring_back_calls(
        req,
        ws,
        switch_coordinator::leaves_fullscreen(req, target),
    );
    assert forall|i: int| 0 <= i < back.len() implies changes_only(#[trigger] back[i], all) by {
        assert(is_among(ws, ws[i].hwnd));
        assert(is_among(all, ws[i].hwnd));
    }
    let stack = switch_coordinator::stack_calls(ws, o);
    assert forall|i: int| 0 <= i < stack.len() implies changes_only(#[trigger] stack[i], all) by {
        assert(o[i + 1] < ws.len());
        assert(is_among(ws, ws[o[i + 1] as int].hwnd));
        assert(is_among(all, ws[o[i + 1] as int].hwnd));
    }
    let front = switch_coordinator::focus_calls(focus);
    assert forall|i: int| 0 <= i < front.len() implies changes_only(#[trigger] front[i], all) by {
        assert(o[o.len() - 1] < ws.len());
        assert(is_among(ws, ws[o.last() as int].hwnd));
        assert(is_among(all, ws[o.last() as int].hwnd));
    }
    let sent = switch_coordinator::key_calls(keys, focus);
    assert forall|i: int| 0 <= i < sent.len() implies changes_only(#[trigger] sent[i], all) by {
        assert(is_among(all, keys[i]));
    }
    lemma_joined(back, stack, all);
    lemma_joined(back + stack, front, all);
    lemma_joined(back + stack + front, sent, all);
}

/// The journal has an entry for the window.
pub open spec fn is_recorded(entries: Seq<JournalWindowEntry>, hwnd: isize) -> bool {
    exists|i: int| 0 <= i < entries.len() && (#[trigger] entries[i]).hwnd == hwnd
}

/// A switch changes only windows whose place and state were written to the journal before: what
/// it does after the journal is written can all be undone from the journal.
pub proof fn law_every_change_is_journaled<'a>(req: RequestView, p: PendingSwitch<'a>)
    requires
        switch_coordinator::entries_of(
            p.journal.windows@,
            switch_coordinator::touched(
                switch_coordinator::parking_view(p.parking@),
                switch_coordinator::resolved_view(p.target_windows@),
                switch_coordinator::resolved_view(p.evictees@),
            ),
        ),
        p.target_windows@.len() <= usize::MAX,
    ensures
        ({
            let all = switch_coordinator::touched(
                switch_coordinator::parking_view(p.parking@),
                switch_coordinator::resolved_view(p.target_windows@),
                switch_coordinator::resolved_view(p.evictees@),
            );
            &&& change_only(switch_coordinator::departure_calls(req, p), all)
            &&& change_only(
                switch_coordinator::arrival_calls(
                    req,
                    *p.target,
                    switch_coordinator::resolved_view(p.target_windows@),
                    switch_coordinator::departure(req, p).keys,
                ),
                all,
            )
            &&& forall|h: isize|
                is_among(all, h) ==> #[trigger] is_recorded(p.journal.windows@, h)
        }),
{
    let sets = switch_coordinator::parking_view(p.parking@);
    let target_windows = switch_coordinator::resolved_view(p.target_windows@);
    let evictees = switch_coordinator::resolved_view(p.evictees@);
    let parked = switch_coordinator::windows_of(sets);
    let all = switch_coordinator::touched(sets, target_windows, evictees);
    lemma_among_joined(parked, target_windows);
    lemma_among_joined(parked + target_windows, evictees);
    law_eviction_changes_evictees_only(req, evictees);
    let evicted = switch_coordinator::eviction_calls(req, evictees);
    lemma_more_windows(evicted, evictees, all);
    lemma_parked_upto(
        req,
        switch_coordinator::set_ids(sets),
        switch_coordinator::decoded(p.runtime.auto_slot_assignments@),
        sets,
        sets.len(),
    );
    let d = switch_coordinator::departure(req, p);
    assert forall|h: isize| is_among(parked, h) implies #[trigger] is_among(all, h) by {
        assert(is_among(parked + target_windows, h));
    }
    assert forall|h: isize| is_among(target_windows, h) implies #[trigger] is_among(all, h) by {
        assert(is_among(parked + target_windows, h));
    }
    lemma_more_windows(d.calls, parked, all);
    lemma_joined(evicted, d.calls, all);
    assert forall|i: int| 0 <= i < d.keys.len() implies is_among(all, #[trigger] d.keys[i]) by {
        assert(is_among(parked, d.keys[i]));
    }
    law_arrival_changes_target_only(req, *p.target, target_windows, d.keys, all);
    let entries = p.journal.windows@;
    assert forall|h: isize| is_among(all, h) implies #[trigger] is_recorded(entries, h) by {
        let i = choose|i: int| 0 <= i < all.len() && (#[trigger] all[i]).hwnd == h;
        assert(entries[i].hwnd == h);
    }
}

} // verus!
