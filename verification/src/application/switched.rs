//! What a switch is for: the windows of the target come back to the main screen, and the windows of
//! every other set are shown in the cell that the set was dealt.

use vstd::prelude::*;

use crate::application::dealt;
use crate::application::effects;
use crate::application::effects::Shown;
use crate::application::journaled;
use crate::application::main_placement;
use crate::application::parking_allocator;
use crate::application::parking_allocator::{AllocationView, AssignmentView, SlotView};
use crate::application::parking_cells;
use crate::application::parking_placement;
use crate::application::sub_screens;
use crate::application::switch_coordinator;
use crate::application::switch_coordinator::{
    ParkedSet, PendingSwitch, RequestView, Resolved,
};
use crate::application::window_ops::WindowCall;
use crate::application::workset_service;
use crate::domain::placement;
use crate::domain::placement::{PixelRect, SavedShowState};
use crate::domain::workset::{ManagedWindow, ParkingPolicy, SubScreen, Workset};
use crate::ids::Uuid;
use crate::order;
use crate::text;
use crate::windowing::enumerate::TopLevelWindow;
use crate::windowing::matcher::MatchView;

verus! {

// ---------------------------------------------------------------------------
// One set in its cell
// ---------------------------------------------------------------------------

/// How window `i` of `n` is shown once its set is parked. In a cell the windows stand side by side,
/// each filling its share, which lies inside the cell; one whose share is smaller than 120 by 68
/// pixels, or for which there is none, is minimized. Without a cell every window is minimized.
pub open spec fn is_parked_in(now: Shown, cell: Option<PixelRect>, n: nat, i: int) -> bool {
    match cell {
        Some(c) => {
            let shares = parking_cells::cells_for(c, n);
            if i < shares.len() && shares[i].width >= 120 && shares[i].height >= 68 {
                &&& now == (Shown { rect: shares[i], state: SavedShowState::Normal })
                &&& parking_allocator::lies_within(now.rect, c)
            } else {
                now.state == SavedShowState::Minimized
            }
        },
        None => now.state == SavedShowState::Minimized,
    }
}

/// No other of the windows is the same as window `i`.
pub open spec fn is_alone(ws: Seq<Resolved>, i: int) -> bool {
    forall|j: int| 0 <= j < ws.len() && j != i ==> (#[trigger] ws[j]).hwnd != ws[i].hwnd
}

/// A share is taken whole, unless it is too small.
pub proof fn lemma_share(rect: PixelRect, cell: PixelRect)
    ensures
        switch_coordinator::fitted(rect, cell) == if cell.width >= 120 && cell.height >= 68 {
            Some(cell)
        } else {
            None
        },
{
    placement::lemma_bounds_of_one(rect);
    placement::lemma_map_own_bounds(rect, parking_placement::usable(cell));
    let s = parking_placement::shrunk(seq![rect], cell);
    assert(s.len() == 1);
    assert(s[0] == parking_placement::usable(cell));
    if cell.width >= 120 && cell.height >= 68 {
        assert(!parking_placement::some_too_small(s));
    } else {
        assert(parking_placement::too_small(s[0]));
    }
}

proof fn lemma_minimized_first(
    req: RequestView,
    ws: Seq<Resolved>,
    area: PixelRect,
    n: nat,
    i: int,
    s: Shown,
)
    requires
        n <= ws.len(),
        0 <= i < ws.len(),
        is_alone(ws, i),
    ensures
        effects::after(
            s,
            ws[i].hwnd,
            switch_coordinator::minimized_first(req, ws, area, n),
        ) == if i < n && switch_coordinator::share_of(req, ws, area, i) is None {
            Shown { state: SavedShowState::Minimized, ..s }
        } else {
            s
        },
    decreases n,
{
    if n > 0 {
        lemma_minimized_first(req, ws, area, (n - 1) as nat, i, s);
        let before = switch_coordinator::minimized_first(req, ws, area, (n - 1) as nat);
        effects::lemma_after_push(
            s,
            ws[i].hwnd,
            before,
            WindowCall::Minimize { hwnd: ws[n - 1].hwnd },
        );
        if i != n - 1 {
            assert(ws[n - 1].hwnd != ws[i].hwnd);
        }
    }
}

proof fn lemma_moved_first(
    req: RequestView,
    ws: Seq<Resolved>,
    area: PixelRect,
    n: nat,
    i: int,
    s: Shown,
)
    requires
        n <= ws.len(),
        0 <= i < ws.len(),
        is_alone(ws, i),
    ensures
        effects::after(
            s,
            ws[i].hwnd,
            switch_coordinator::fill_calls(switch_coordinator::moved_first(req, ws, area, n)),
        ) == if i < n && switch_coordinator::share_of(req, ws, area, i) is Some {
            effects::placed(switch_coordinator::share_of(req, ws, area, i)->0, false)
        } else {
            s
        },
    decreases n,
{
    if n > 0 {
        lemma_moved_first(req, ws, area, (n - 1) as nat, i, s);
        let before = switch_coordinator::moved_first(req, ws, area, (n - 1) as nat);
        if let Some(rect) = switch_coordinator::share_of(req, ws, area, n - 1) {
            let one = (ws[n - 1].hwnd, rect);
            let calls = switch_coordinator::fill_calls(before);
            assert(switch_coordinator::fill_calls(before.push(one)) =~= calls.push(
                switch_coordinator::fill_call(one),
            ));
            effects::lemma_after_push(s, ws[i].hwnd, calls, switch_coordinator::fill_call(one));
            if i != n - 1 {
                assert(ws[n - 1].hwnd != ws[i].hwnd);
            }
        }
    }
}

proof fn lemma_parked_in(
    req: RequestView,
    ws: Seq<Resolved>,
    area: PixelRect,
    fullscreen: bool,
    slots: Map<Uuid, SlotView>,
    dealt: bool,
    i: int,
    s: Shown,
)
    requires
        area.fits(),
        switch_coordinator::parked_in(req, ws, area, fullscreen, slots, dealt).ok,
        0 <= i < ws.len(),
        is_alone(ws, i),
    ensures
        is_parked_in(
            effects::after(
                s,
                ws[i].hwnd,
                switch_coordinator::parked_in(req, ws, area, fullscreen, slots, dealt).calls,
            ),
            Some(area),
            ws.len(),
            i,
        ),
{
    let small = switch_coordinator::minimized_first(req, ws, area, ws.len());
    let fills = switch_coordinator::fill_calls(
        switch_coordinator::moved_first(req, ws, area, ws.len()),
    );
    let middle = effects::after(s, ws[i].hwnd, small);
    lemma_minimized_first(req, ws, area, ws.len(), i, s);
    lemma_moved_first(req, ws, area, ws.len(), i, middle);
    effects::lemma_after_joined(s, ws[i].hwnd, small, fills);
    let cells = parking_cells::cells_for(area, ws.len());
    if i < cells.len() {
        lemma_share(switch_coordinator::main_place(req, ws[i])->0.rect, cells[i]);
        parking_cells::law_cells_tile_the_region(area, ws.len());
        assert(parking_allocator::lies_within(cells[i], area));
    }
}

proof fn lemma_parked_nowhere(
    ws: Seq<Resolved>,
    slots: Map<Uuid, SlotView>,
    dealt: bool,
    i: int,
    s: Shown,
)
    requires
        0 <= i < ws.len(),
    ensures
        effects::after(
            s,
            ws[i].hwnd,
            switch_coordinator::parked_nowhere(ws, slots, dealt).calls,
        ).state == SavedShowState::Minimized,
    decreases ws.len(),
{
    let calls = switch_coordinator::minimize_all(ws);
    let rest = ws.drop_last();
    assert(calls.drop_last() =~= switch_coordinator::minimize_all(rest));
    if i < ws.len() - 1 {
        lemma_parked_nowhere(rest, slots, dealt, i, s);
    }
}

// ---------------------------------------------------------------------------
// The cell of a set
// ---------------------------------------------------------------------------

/// What the cells are dealt out by in a switch: the target is left out as the current set, the
/// monitors of named areas are kept free, and the sets with live windows count.
pub open spec fn dealt_by(
    req: RequestView,
    sets: Seq<ParkedSet>,
    previous: Map<Uuid, SlotView>,
) -> AllocationView {
    AllocationView {
        worksets: req.worksets,
        current: Some(req.target),
        fixed_slots: req.fixed_slots,
        main_monitor_ids: req.main_monitor_ids,
        live_monitors: req.live_monitors,
        saved_monitors: req.saved_monitors,
        sub_screen_monitor_ids: switch_coordinator::area_monitors(req.sub_screens),
        previous,
        with_windows: switch_coordinator::set_ids(sets),
    }
}

/// The cell that a set is parked in: its part of the named area that it names, or else the place
/// that it is dealt.
pub open spec fn cell_of(
    req: RequestView,
    sets: Seq<ParkedSet>,
    previous: Map<Uuid, SlotView>,
    w: Workset,
) -> Option<PixelRect> {
    match w.parking_policy {
        ParkingPolicy::SubScreen { sub_screen_id } => match switch_coordinator::area_with_id(
            req.sub_screens,
            sub_screen_id,
        ) {
            Some(sub) => sub_screens::slot_rect_of(sub, req.worksets, w.id, req.live_monitors),
            None => None,
        },
        _ => {
            let places = parking_allocator::allocation(dealt_by(req, sets, previous)).0;
            if places.contains_key(w.id) {
                match places[w.id] {
                    AssignmentView::Auto(_, rect) => Some(rect),
                    AssignmentView::Fixed(_, rect) => Some(rect),
                    AssignmentView::Minimized => None,
                }
            } else {
                None
            }
        },
    }
}

/// The monitors of named areas are exactly those that an area names.
pub proof fn law_area_monitors_are_those_named(subs: Seq<SubScreen>, name: Seq<char>)
    ensures
        switch_coordinator::area_monitors(subs).contains(name) <==> exists|i: int, j: int|
            0 <= i < subs.len() && 0 <= j < subs[i].monitor_ids@.len() && (
            #[trigger] subs[i].monitor_ids@[j])@ == name,
    decreases subs.len(),
{
    let all = switch_coordinator::area_monitors(subs);
    if subs.len() > 0 {
        let rest = subs.drop_last();
        law_area_monitors_are_those_named(rest, name);
        let before = switch_coordinator::area_monitors(rest);
        let last = text::texts(subs.last().monitor_ids@);
        let n = subs.len() - 1;
        if all.contains(name) {
            let k = choose|k: int| 0 <= k < all.len() && all[k] == name;
            if k < before.len() {
                assert(before[k] == name);
                let (i, j) = choose|i: int, j: int|
                    0 <= i < rest.len() && 0 <= j < rest[i].monitor_ids@.len() && (
                    #[trigger] rest[i].monitor_ids@[j])@ == name;
                assert(subs[i].monitor_ids@[j]@ == name);
            } else {
                let j = k - before.len();
                assert(last[j] == name);
                assert(subs[n].monitor_ids@[j]@ == name);
            }
        }
        if exists|i: int, j: int|
            0 <= i < subs.len() && 0 <= j < subs[i].monitor_ids@.len() && (
            #[trigger] subs[i].monitor_ids@[j])@ == name {
            let (i, j) = choose|i: int, j: int|
                0 <= i < subs.len() && 0 <= j < subs[i].monitor_ids@.len() && (
                #[trigger] subs[i].monitor_ids@[j])@ == name;
            if i < n {
                assert(rest[i].monitor_ids@[j]@ == name);
                let k = choose|k: int| 0 <= k < before.len() && before[k] == name;
                assert(all[k] == name);
            } else {
                assert(last[j] == name);
                assert(all[before.len() + j] == name);
            }
        }
    }
}

/// Sets with live windows are exactly those that are parked.
pub proof fn law_parked_sets_count(sets: Seq<ParkedSet>, id: Uuid)
    ensures
        switch_coordinator::set_ids(sets).contains(id) <==> exists|k: int|
            0 <= k < sets.len() && (#[trigger] sets[k]).set.id == id,
    decreases sets.len(),
{
    if sets.len() > 0 {
        let rest = sets.drop_last();
        law_parked_sets_count(rest, id);
        if switch_coordinator::set_ids(rest).contains(id) {
            let k = choose|k: int| 0 <= k < rest.len() && (#[trigger] rest[k]).set.id == id;
            assert(sets[k].set.id == id);
        }
        if exists|k: int| 0 <= k < sets.len() && (#[trigger] sets[k]).set.id == id {
            let k = choose|k: int| 0 <= k < sets.len() && (#[trigger] sets[k]).set.id == id;
            if k < rest.len() {
                assert(rest[k].set.id == id);
            }
        }
        assert(sets[sets.len() - 1] == sets.last());
    }
}

/// A cell of a set can be cut up.
proof fn lemma_cell_fits(
    req: RequestView,
    sets: Seq<ParkedSet>,
    previous: Map<Uuid, SlotView>,
    w: Workset,
)
    requires
        dealt::holds_in_memory(dealt_by(req, sets, previous)),
        parking_allocator::monitors_fit(req.live_monitors),
    ensures
        cell_of(req, sets, previous, w) matches Some(c) ==> c.fits(),
{
    let input = dealt_by(req, sets, previous);
    match w.parking_policy {
        ParkingPolicy::SubScreen { sub_screen_id } => {
            if let Some(sub) = switch_coordinator::area_with_id(req.sub_screens, sub_screen_id) {
                if sub_screens::slot_rect_of(sub, req.worksets, w.id, req.live_monitors) is Some {
                    sub_screens::law_cell_lies_in_the_region(
                        sub,
                        req.worksets,
                        w.id,
                        req.live_monitors,
                    );
                }
            }
        },
        _ => {
            if parking_allocator::allocation(input).0.contains_key(w.id) {
                parking_allocator::law_dealt_cells_lie_on_a_monitor(input, w.id);
            }
        },
    }
}

/// Parking one set shows its windows in its cell.
proof fn lemma_park_of(
    req: RequestView,
    sets: Seq<ParkedSet>,
    slots: Map<Uuid, SlotView>,
    w: Workset,
    ws: Seq<Resolved>,
    i: int,
    s: Shown,
)
    requires
        dealt::holds_in_memory(dealt_by(req, sets, slots)),
        parking_allocator::monitors_fit(req.live_monitors),
        switch_coordinator::park_of(
            req,
            switch_coordinator::set_ids(sets),
            slots,
            w,
            ws,
        ).ok,
        0 <= i < ws.len(),
        is_alone(ws, i),
    ensures
        is_parked_in(
            effects::after(
                s,
                ws[i].hwnd,
                switch_coordinator::park_of(
                    req,
                    switch_coordinator::set_ids(sets),
                    slots,
                    w,
                    ws,
                ).calls,
            ),
            cell_of(req, sets, slots, w),
            ws.len(),
            i,
        ),
{
    let ids = switch_coordinator::set_ids(sets);
    let cell = cell_of(req, sets, slots, w);
    lemma_cell_fits(req, sets, slots, w);
    assert(switch_coordinator::dealing(req, ids, slots) == dealt_by(req, sets, slots));
    match w.parking_policy {
        ParkingPolicy::SubScreen { sub_screen_id } => {
            let full = switch_coordinator::fills_area(req, w, sub_screen_id);
            match cell {
                Some(c) => lemma_parked_in(req, ws, c, full, slots, false, i, s),
                None => lemma_parked_nowhere(ws, slots, false, i, s),
            }
        },
        _ => {
            let now = parking_allocator::allocation(dealt_by(req, sets, slots)).1;
            match cell {
                Some(c) => lemma_parked_in(req, ws, c, w.fullscreen_when_parked, now, true, i, s),
                None => lemma_parked_nowhere(ws, now, true, i, s),
            }
        },
    }
}

/// However many sets are parked already, the cells are dealt out as at the start.
proof fn lemma_cells_stay(
    req: RequestView,
    sets: Seq<ParkedSet>,
    start: Map<Uuid, SlotView>,
    k: nat,
    w: Workset,
)
    requires
        dealt::holds_in_memory(dealt_by(req, sets, start)),
        dealt::all_distinct(dealt_by(req, sets, start)),
        k <= sets.len(),
        switch_coordinator::parked_upto(
            req,
            switch_coordinator::set_ids(sets),
            start,
            sets,
            k,
        ).ok,
    ensures
        ({
            let slots = switch_coordinator::parked_upto(
                req,
                switch_coordinator::set_ids(sets),
                start,
                sets,
                k,
            ).slots;
            &&& parking_allocator::allocation(dealt_by(req, sets, slots))
                == parking_allocator::allocation(dealt_by(req, sets, start))
            &&& cell_of(req, sets, slots, w) == cell_of(req, sets, start, w)
            &&& slots == start || slots == parking_allocator::allocation(
                dealt_by(req, sets, start),
            ).1
        }),
    decreases k,
{
    let ids = switch_coordinator::set_ids(sets);
    let first = dealt_by(req, sets, start);
    if k > 0 {
        lemma_cells_stay(req, sets, start, (k - 1) as nat, w);
        let b = switch_coordinator::parked_upto(req, ids, start, sets, (k - 1) as nat);
        let set = sets[k - 1];
        assert(switch_coordinator::dealing(req, ids, b.slots) == dealt_by(req, sets, b.slots));
        parking_allocator::law_next_allocation_is_the_same(first);
        let dealt = parking_allocator::allocation(first).1;
        assert(parking_allocator::with_previous(first, dealt) == dealt_by(req, sets, dealt));
    }
}

// ---------------------------------------------------------------------------
// All windows in the end
// ---------------------------------------------------------------------------

proof fn lemma_others_left_alone(calls: Seq<WindowCall>, ws: Seq<Resolved>, h: isize)
    requires
        journaled::change_only(calls, ws),
        !journaled::is_among(ws, h),
    ensures
        effects::all_leave_alone(calls, h),
{
    assert forall|i: int| 0 <= i < calls.len() implies effects::leaves_alone(
        #[trigger] calls[i],
        h,
    ) by {
        assert(journaled::changes_only(calls[i], ws));
        if let WindowCall::BatchMove { moves, done } = calls[i] {
            assert forall|j: int| 0 <= j < moves.len() implies (#[trigger] moves[j]).0 != h by {
                assert(journaled::is_among(ws, moves[j].0));
            }
        }
    }
}

/// Window `i` of set `k` is shown in the cell of its set once the first `n` sets are parked, as
/// long as none of the others has the same window.
proof fn lemma_parked_upto(
    req: RequestView,
    sets: Seq<ParkedSet>,
    start: Map<Uuid, SlotView>,
    n: nat,
    k: int,
    i: int,
    s: Shown,
)
    requires
        dealt::holds_in_memory(dealt_by(req, sets, start)),
        dealt::all_distinct(dealt_by(req, sets, start)),
        parking_allocator::monitors_fit(req.live_monitors),
        k < n <= sets.len(),
        0 <= k,
        0 <= i < sets[k].windows.len(),
        is_alone(sets[k].windows, i),
        forall|l: int|
            0 <= l < sets.len() && l != k ==> !journaled::is_among(
                (#[trigger] sets[l]).windows,
                sets[k].windows[i].hwnd,
            ),
        switch_coordinator::parked_upto(
            req,
            switch_coordinator::set_ids(sets),
            start,
            sets,
            n,
        ).ok,
    ensures
        is_parked_in(
            effects::after(
                s,
                sets[k].windows[i].hwnd,
                switch_coordinator::parked_upto(
                    req,
                    switch_coordinator::set_ids(sets),
                    start,
                    sets,
                    n,
                ).calls,
            ),
            cell_of(req, sets, start, sets[k].set),
            sets[k].windows.len(),
            i,
        ),
    decreases n,
{
    let ids = switch_coordinator::set_ids(sets);
    let h = sets[k].windows[i].hwnd;
    let b = switch_coordinator::parked_upto(req, ids, start, sets, (n - 1) as nat);
    assert(b.ok);
    let set = sets[n - 1];
    let p = switch_coordinator::park_of(req, ids, b.slots, set.set, set.windows);
    effects::lemma_after_joined(s, h, b.calls, p.calls);
    let middle = effects::after(s, h, b.calls);
    if k == n - 1 {
        lemma_cells_stay(req, sets, start, (n - 1) as nat, set.set);
        lemma_park_of(req, sets, b.slots, set.set, set.windows, i, middle);
    } else {
        lemma_parked_upto(req, sets, start, (n - 1) as nat, k, i, s);
        journaled::law_parking_changes_own_windows_only(req, ids, b.slots, set.set, set.windows);
        assert(!journaled::is_among(sets[n - 1].windows, h));
        lemma_others_left_alone(p.calls, set.windows, h);
        effects::lemma_left_alone(middle, h, p.calls);
    }
}

/// Everything that a switch does to windows once it is journaled.
pub open spec fn switch_calls<'a>(req: RequestView, p: PendingSwitch<'a>) -> Seq<WindowCall> {
    switch_coordinator::departure_calls(req, p) + switch_coordinator::arrival_calls(
        req,
        *p.target,
        switch_coordinator::resolved_view(p.target_windows@),
        switch_coordinator::departure(req, p).keys,
    )
}

/// After a switch that goes through, every window of a set that has a cell is shown inside that cell,
/// side by side with the others of its set, and minimized only where its share is too small or there
/// are more windows than shares; the windows of a set without a cell are minimized. The cell is the
/// one that the set is dealt, designated to, or has in its named area. This holds of every window
/// that belongs to one set only.
pub proof fn law_parked_windows_are_shown_in_their_cell<'a>(
    req: RequestView,
    p: PendingSwitch<'a>,
    k: int,
    i: int,
    s: Shown,
)
    requires
        switch_coordinator::failure_of(req, p) is None,
        req.worksets.len() <= usize::MAX,
        req.live_monitors.len() <= usize::MAX,
        parking_allocator::distinct_sets(req.worksets),
        parking_allocator::distinct_names(req.live_monitors),
        parking_allocator::monitors_fit(req.live_monitors),
        0 <= k < p.parking@.len(),
        0 <= i < p.parking@[k].windows@.len(),
        is_alone(switch_coordinator::resolved_view(p.parking@[k].windows@), i),
        forall|l: int|
            0 <= l < p.parking@.len() && l != k ==> !journaled::is_among(
                switch_coordinator::resolved_view((#[trigger] p.parking@[l]).windows@),
                p.parking@[k].windows@[i].hwnd,
            ),
        !journaled::is_among(
            switch_coordinator::resolved_view(p.target_windows@),
            p.parking@[k].windows@[i].hwnd,
        ),
    ensures
        is_parked_in(
            effects::after(s, p.parking@[k].windows@[i].hwnd, switch_calls(req, p)),
            cell_of(
                req,
                switch_coordinator::parking_view(p.parking@),
                switch_coordinator::decoded(p.runtime.auto_slot_assignments@),
                *p.parking@[k].set,
            ),
            p.parking@[k].windows@.len(),
            i,
        ),
{
    let sets = switch_coordinator::parking_view(p.parking@);
    let start = switch_coordinator::decoded(p.runtime.auto_slot_assignments@);
    let ws = switch_coordinator::resolved_view(p.target_windows@);
    let h = p.parking@[k].windows@[i].hwnd;
    assert(sets[k] == p.parking@[k]@);
    assert(sets[k].windows[i] == p.parking@[k].windows@[i]@);
    let d = switch_coordinator::departure(req, p);
    let evicted = switch_coordinator::eviction_calls(
        req,
        switch_coordinator::resolved_view(p.evictees@),
    );
    let arrival = switch_coordinator::arrival_calls(req, *p.target, ws, d.keys);
    let departed = switch_coordinator::departure_calls(req, p);
    effects::lemma_after_joined(s, h, departed, arrival);
    effects::lemma_after_joined(s, h, evicted, d.calls);
    let first = effects::after(s, h, evicted);
    assert forall|l: int| 0 <= l < sets.len() && l != k implies !journaled::is_among(
        (#[trigger] sets[l]).windows,
        sets[k].windows[i].hwnd,
    ) by {
        assert(sets[l] == p.parking@[l]@);
    }
    lemma_parked_upto(req, sets, start, sets.len(), k, i, first);
    lemma_arrival_leaves_alone(req, *p.target, ws, d.keys, h);
    effects::lemma_left_alone(effects::after(s, h, departed), h, arrival);
}

proof fn lemma_arrival_leaves_alone(
    req: RequestView,
    target: Workset,
    ws: Seq<Resolved>,
    keys: Seq<isize>,
    h: isize,
)
    requires
        !journaled::is_among(ws, h),
    ensures
        effects::all_leave_alone(
            switch_coordinator::arrival_calls(req, target, ws, keys),
            h,
        ),
{
    let o = switch_coordinator::by_height(ws);
    let focus = switch_coordinator::top_handle(ws, o);
    let back = switch_coordinator::bring_back_calls(
        req,
        ws,
        switch_coordinator::leaves_fullscreen(req, target),
    );
    assert forall|i: int| 0 <= i < back.len() implies effects::leaves_alone(
        #[trigger] back[i],
        h,
    ) by {
        assert(ws[i].hwnd != h);
    }
    let stack = switch_coordinator::stack_calls(ws, o);
    let front = switch_coordinator::focus_calls(focus);
    let sent = switch_coordinator::key_calls(keys, focus);
    effects::lemma_joined_leave_alone(back, stack, h);
    effects::lemma_joined_leave_alone(back + stack, front, h);
    effects::lemma_joined_leave_alone(back + stack + front, sent, h);
}

/// What a set is dealt follows the switch: once it is over, the places kept for the next one are
/// those that its sets were parked by, or, where none was dealt a place, those that there were.
pub proof fn law_places_are_kept_for_the_next_switch<'a>(req: RequestView, p: PendingSwitch<'a>)
    requires
        switch_coordinator::failure_of(req, p) is None,
        req.worksets.len() <= usize::MAX,
        req.live_monitors.len() <= usize::MAX,
        parking_allocator::distinct_sets(req.worksets),
        parking_allocator::distinct_names(req.live_monitors),
    ensures
        ({
            let sets = switch_coordinator::parking_view(p.parking@);
            let start = switch_coordinator::decoded(p.runtime.auto_slot_assignments@);
            let d = switch_coordinator::departure(req, p);
            &&& d.slots == start || d.slots == parking_allocator::allocation(
                dealt_by(req, sets, start),
            ).1
            &&& (exists|k: int|
                0 <= k < sets.len() && !((#[trigger] sets[k]).set.parking_policy is SubScreen))
                ==> d.slots == parking_allocator::allocation(dealt_by(req, sets, start)).1
        }),
{
    let sets = switch_coordinator::parking_view(p.parking@);
    let start = switch_coordinator::decoded(p.runtime.auto_slot_assignments@);
    if exists|k: int|
        0 <= k < sets.len() && !((#[trigger] sets[k]).set.parking_policy is SubScreen) {
        let k = choose|k: int|
            0 <= k < sets.len() && !((#[trigger] sets[k]).set.parking_policy is SubScreen);
        lemma_slots_after(req, sets, start, sets.len(), k);
    }
    if sets.len() > 0 {
        lemma_cells_stay(req, sets, start, sets.len(), sets[0].set);
    }
}

proof fn lemma_slots_after(
    req: RequestView,
    sets: Seq<ParkedSet>,
    start: Map<Uuid, SlotView>,
    n: nat,
    k: int,
)
    requires
        dealt::holds_in_memory(dealt_by(req, sets, start)),
        dealt::all_distinct(dealt_by(req, sets, start)),
        0 <= k < n <= sets.len(),
        !(sets[k].set.parking_policy is SubScreen),
        switch_coordinator::parked_upto(
            req,
            switch_coordinator::set_ids(sets),
            start,
            sets,
            n,
        ).ok,
    ensures
        switch_coordinator::parked_upto(
            req,
            switch_coordinator::set_ids(sets),
            start,
            sets,
            n,
        ).slots == parking_allocator::allocation(dealt_by(req, sets, start)).1,
    decreases n,
{
    let ids = switch_coordinator::set_ids(sets);
    let b = switch_coordinator::parked_upto(req, ids, start, sets, (n - 1) as nat);
    lemma_cells_stay(req, sets, start, (n - 1) as nat, sets[n - 1].set);
    assert(switch_coordinator::dealing(req, ids, b.slots) == dealt_by(req, sets, b.slots));
    if k < n - 1 {
        lemma_slots_after(req, sets, start, (n - 1) as nat, k);
    }
}

/// After a switch that goes through, every window of the target stands where it was registered on
/// the main screen, maximized if it was registered so and normal otherwise; none is left minimized,
/// wherever it was before.
pub proof fn law_target_windows_come_back<'a>(
    req: RequestView,
    p: PendingSwitch<'a>,
    i: int,
    s: Shown,
)
    requires
        switch_coordinator::failure_of(req, p) is None,
        0 <= i < p.target_windows@.len(),
        forall|j: int|
            i < j < p.target_windows@.len() ==> (#[trigger] p.target_windows@[j]).hwnd
                != p.target_windows@[i].hwnd,
    ensures
        ({
            let saved = p.target_windows@[i].managed.main_placement;
            let home = main_placement::home_monitor(
                saved.main_monitor_index,
                req.live_monitors,
                req.main_monitor_ids,
            );
            &&& home is Some
            &&& effects::after(s, p.target_windows@[i].hwnd, switch_calls(req, p)) == (Shown {
                rect: main_placement::restored_rect(saved, home->0.work_area_px),
                state: if saved.show_state == SavedShowState::Maximized {
                    SavedShowState::Maximized
                } else {
                    SavedShowState::Normal
                },
            })
        }),
{
    let ws = switch_coordinator::resolved_view(p.target_windows@);
    let h = p.target_windows@[i].hwnd;
    assert(ws[i] == p.target_windows@[i]@);
    let d = switch_coordinator::departure(req, p);
    let departed = switch_coordinator::departure_calls(req, p);
    let arrival = switch_coordinator::arrival_calls(req, *p.target, ws, d.keys);
    effects::lemma_after_joined(s, h, departed, arrival);
    let t = effects::after(s, h, departed);
    let leaves = switch_coordinator::leaves_fullscreen(req, *p.target);
    let o = switch_coordinator::by_height(ws);
    let focus = switch_coordinator::top_handle(ws, o);
    let back = switch_coordinator::bring_back_calls(req, ws, leaves);
    let stack = switch_coordinator::stack_calls(ws, o);
    let front = switch_coordinator::focus_calls(focus);
    let sent = switch_coordinator::key_calls(d.keys, focus);
    effects::lemma_after_joined(t, h, back + stack + front, sent);
    effects::lemma_after_joined(t, h, back + stack, front);
    effects::lemma_after_joined(t, h, back, stack);
    assert(switch_coordinator::main_place(req, ws[i]) is Some);
    assert forall|j: int| i < j < ws.len() implies (#[trigger] ws[j]).hwnd != ws[i].hwnd by {
        assert(ws[j] == p.target_windows@[j]@);
    }
    lemma_brought_back(req, ws, leaves, i, t);
    let u = effects::after(t, h, back);
    effects::lemma_left_alone(u, h, stack);
    effects::lemma_left_alone(u, h, front);
    effects::lemma_left_alone(u, h, sent);
}

proof fn lemma_brought_back(
    req: RequestView,
    ws: Seq<Resolved>,
    leaves: bool,
    i: int,
    s: Shown,
)
    requires
        0 <= i < ws.len(),
        forall|j: int| i < j < ws.len() ==> (#[trigger] ws[j]).hwnd != ws[i].hwnd,
    ensures
        ({
            let outcome = switch_coordinator::main_place(req, ws[i])->0;
            effects::after(
                s,
                ws[i].hwnd,
                switch_coordinator::bring_back_calls(req, ws, leaves),
            ) == effects::placed(
                outcome.rect,
                outcome.show_state == SavedShowState::Maximized,
            )
        }),
    decreases ws.len(),
{
    let calls = switch_coordinator::bring_back_calls(req, ws, leaves);
    let rest = ws.drop_last();
    assert(calls.drop_last() =~= switch_coordinator::bring_back_calls(req, rest, leaves));
    if i < ws.len() - 1 {
        assert forall|j: int| i < j < rest.len() implies (#[trigger] rest[j]).hwnd
            != rest[i].hwnd by {
            assert(rest[j] == ws[j]);
        }
        lemma_brought_back(req, rest, leaves, i, s);
        assert(ws[ws.len() - 1].hwnd != ws[i].hwnd);
    }
}

// ---------------------------------------------------------------------------
// Who stands in front
// ---------------------------------------------------------------------------

/// A set that is brought back is stacked as it was registered, and its highest window has the focus
/// in the end: every window but the lowest is put next to one that is no higher, and the focus goes
/// to one that no other is higher than. Windows that are sent keys hand the focus back to it.
pub proof fn law_target_is_stacked_and_focused(
    req: RequestView,
    target: Workset,
    ws: Seq<Resolved>,
    keys: Seq<isize>,
)
    requires
        0 < ws.len() <= usize::MAX,
    ensures
        ({
            let calls = switch_coordinator::arrival_calls(req, target, ws, keys);
            let focus = switch_coordinator::top_handle(ws, switch_coordinator::by_height(ws));
            &&& exists|i: int|
                0 <= i < ws.len() && focus == Some((#[trigger] ws[i]).hwnd) && forall|j: int|
                    0 <= j < ws.len() ==> (#[trigger] ws[j]).managed.z_order
                        <= ws[i].managed.z_order
            &&& calls.contains(WindowCall::Foreground { hwnd: focus->0 })
            &&& forall|c: int|
                0 <= c < calls.len() ==> match #[trigger] calls[c] {
                    WindowCall::Foreground { hwnd } => Some(hwnd) == focus,
                    WindowCall::FullscreenKeys { hwnd, refocus } => refocus == focus
                        && keys.contains(hwnd),
                    WindowCall::ZOrderAfter { hwnd, after } => is_stacked_on(ws, hwnd, after),
                    WindowCall::SetPlacement { .. } => true,
                    WindowCall::ExitFullscreen { .. } => true,
                    _ => false,
                }
            &&& forall|k: int|
                0 <= k < keys.len() ==> calls.contains(
                    WindowCall::FullscreenKeys { hwnd: #[trigger] keys[k], refocus: focus },
                )
            &&& forall|i: int|
                0 <= i < ws.len() ==> (exists|j: int|
                    0 <= j < ws.len() && j != i && (#[trigger] ws[j]).managed.z_order
                        <= ws[i].managed.z_order && calls.contains(
                        WindowCall::ZOrderAfter {
                            hwnd: (#[trigger] ws[i]).hwnd,
                            after: Some(ws[j].hwnd),
                        },
                    )) || (forall|j: int|
                    0 <= j < ws.len() ==> ws[i].managed.z_order <= (
                    #[trigger] ws[j]).managed.z_order)
        }),
{
    let keys_z = switch_coordinator::z_keys(ws);
    let some = order::lemma_stable_order_exists(keys_z);
    let o = switch_coordinator::by_height(ws);
    assert(order::is_stable_order(o, keys_z));
    order::lemma_stable_order_distinct(o, keys_z);
    order::lemma_order_is_complete(o, ws.len());
    let n = ws.len();
    let focus = switch_coordinator::top_handle(ws, o);
    let back = switch_coordinator::bring_back_calls(
        req,
        ws,
        switch_coordinator::leaves_fullscreen(req, target),
    );
    let stack = switch_coordinator::stack_calls(ws, o);
    let front = switch_coordinator::focus_calls(focus);
    let sent = switch_coordinator::key_calls(keys, focus);
    let calls = switch_coordinator::arrival_calls(req, target, ws, keys);
    let top = o[n - 1] as int;
    assert(focus == Some(ws[top].hwnd));
    assert forall|j: int| 0 <= j < ws.len() implies (#[trigger] ws[j]).managed.z_order
        <= ws[top].managed.z_order by {
        lemma_higher(ws, o, j, n - 1);
    }
    assert(front[0] == WindowCall::Foreground { hwnd: focus->0 });
    assert(calls[(back.len() + stack.len()) as int] == front[0]);
    assert forall|c: int| 0 <= c < calls.len() implies match #[trigger] calls[c] {
        WindowCall::Foreground { hwnd } => Some(hwnd) == focus,
        WindowCall::FullscreenKeys { hwnd, refocus } => refocus == focus && keys.contains(hwnd),
        WindowCall::ZOrderAfter { hwnd, after } => is_stacked_on(ws, hwnd, after),
        WindowCall::SetPlacement { .. } => true,
        WindowCall::ExitFullscreen { .. } => true,
        _ => false,
    } by {
        if c < back.len() {
            assert(calls[c] == back[c]);
        } else if c < back.len() + stack.len() {
            let x = c - back.len();
            assert(calls[c] == stack[x]);
            assert(order::stable_before(keys_z, o[x] as int, o[x + 1] as int));
            assert(o[x] != o[x + 1]);
            assert(ws[o[x + 1] as int].managed.z_order >= ws[o[x] as int].managed.z_order);
            assert(is_stacked_pair(ws, o[x + 1] as int, o[x] as int));
        } else if c == back.len() + stack.len() {
        } else {
            let x = c - back.len() - stack.len() - 1;
            assert(calls[c] == sent[x]);
            assert(keys[x] == keys[x]);
        }
    }
    assert forall|k: int| 0 <= k < keys.len() implies calls.contains(
        WindowCall::FullscreenKeys { hwnd: #[trigger] keys[k], refocus: focus },
    ) by {
        assert(calls[back.len() + stack.len() + 1 + k] == sent[k]);
    }
    assert forall|i: int| 0 <= i < ws.len() implies (exists|j: int|
        0 <= j < ws.len() && j != i && (#[trigger] ws[j]).managed.z_order
            <= ws[i].managed.z_order && calls.contains(
            WindowCall::ZOrderAfter {
                hwnd: (#[trigger] ws[i]).hwnd,
                after: Some(ws[j].hwnd),
            },
        )) || (forall|j: int|
        0 <= j < ws.len() ==> ws[i].managed.z_order <= (#[trigger] ws[j]).managed.z_order) by {
        assert(o.contains(i as usize));
        let x = choose|x: int| 0 <= x < o.len() && o[x] == i as usize;
        if x > 0 {
            let j = o[x - 1] as int;
            assert(order::stable_before(keys_z, o[x - 1] as int, o[x] as int));
            assert(o[x - 1] != o[x]);
            assert(ws[j].managed.z_order <= ws[i].managed.z_order);
            assert(stack[x - 1] == WindowCall::ZOrderAfter {
                hwnd: ws[i].hwnd,
                after: Some(ws[j].hwnd),
            });
            assert(calls[back.len() + x - 1] == stack[x - 1]);
        } else {
            assert forall|j: int| 0 <= j < ws.len() implies ws[i].managed.z_order <= (
            #[trigger] ws[j]).managed.z_order by {
                assert(o.contains(j as usize));
                let y = choose|y: int| 0 <= y < o.len() && o[y] == j as usize;
                if y > 0 {
                    assert(order::stable_before(keys_z, o[0] as int, o[y] as int));
                }
            }
        }
    }
}

/// Window `i` is put next to window `j`, which is no higher.
pub open spec fn is_stacked_pair(ws: Seq<Resolved>, i: int, j: int) -> bool {
    &&& 0 <= i < ws.len()
    &&& 0 <= j < ws.len()
    &&& i != j
    &&& ws[j].managed.z_order <= ws[i].managed.z_order
}

pub open spec fn is_stacked_on(ws: Seq<Resolved>, hwnd: isize, after: Option<isize>) -> bool {
    exists|i: int, j: int| #[trigger]
        is_stacked_pair(ws, i, j) && ws[i].hwnd == hwnd && after == Some(ws[j].hwnd)
}

proof fn lemma_higher(ws: Seq<Resolved>, o: Seq<usize>, j: int, at: int)
    requires
        order::is_stable_order(o, switch_coordinator::z_keys(ws)),
        ws.len() <= usize::MAX,
        0 <= j < ws.len(),
        at == ws.len() - 1,
    ensures
        ws[j].managed.z_order <= ws[o[at] as int].managed.z_order,
{
    let keys = switch_coordinator::z_keys(ws);
    order::lemma_stable_order_distinct(o, keys);
    order::lemma_order_is_complete(o, ws.len());
    assert(o.contains(j as usize));
    let x = choose|x: int| 0 <= x < o.len() && o[x] == j as usize;
    if x < at {
        assert(order::stable_before(keys, o[x] as int, o[at] as int));
    }
}

// ---------------------------------------------------------------------------
// Which windows take part
// ---------------------------------------------------------------------------

/// The windows of a set that take part are those of its registered windows that were found again,
/// each under the handle that it was found with.
pub proof fn law_windows_found_again_take_part(
    windows: Seq<ManagedWindow>,
    decisions: Map<Uuid, MatchView>,
    live: Seq<TopLevelWindow>,
)
    ensures
        ({
            let ws = switch_coordinator::resolved_of(windows, decisions, live);
            &&& forall|k: int|
                0 <= k < ws.len() ==> windows.contains((#[trigger] ws[k]).managed)
                    && workset_service::handle_of(decisions, ws[k].managed.id) == Some(ws[k].hwnd)
            &&& forall|i: int|
                0 <= i < windows.len() && workset_service::handle_of(
                    decisions,
                    (#[trigger] windows[i]).id,
                ) is Some ==> exists|k: int|
                    0 <= k < ws.len() && (#[trigger] ws[k]).managed == windows[i]
        }),
    decreases windows.len(),
{
    let ws = switch_coordinator::resolved_of(windows, decisions, live);
    if windows.len() > 0 {
        let rest = windows.drop_last();
        law_windows_found_again_take_part(rest, decisions, live);
        let before = switch_coordinator::resolved_of(rest, decisions, live);
        assert forall|k: int| 0 <= k < ws.len() implies windows.contains(
            (#[trigger] ws[k]).managed,
        ) && workset_service::handle_of(decisions, ws[k].managed.id) == Some(ws[k].hwnd) by {
            if k < before.len() {
                assert(ws[k] == before[k]);
                let j = choose|j: int| 0 <= j < rest.len() && rest[j] == before[k].managed;
                assert(windows[j] == ws[k].managed);
            } else {
                assert(windows[windows.len() - 1] == ws[k].managed);
            }
        }
        assert forall|i: int|
            0 <= i < windows.len() && workset_service::handle_of(
                decisions,
                (#[trigger] windows[i]).id,
            ) is Some implies exists|k: int|
            0 <= k < ws.len() && (#[trigger] ws[k]).managed == windows[i] by {
            if i < rest.len() {
                assert(rest[i] == windows[i]);
                let k = choose|k: int|
                    0 <= k < before.len() && (#[trigger] before[k]).managed == rest[i];
                assert(ws[k] == before[k]);
            } else {
                assert(ws[before.len() as int].managed == windows[i]);
            }
        }
    }
}

/// Every set but the target that has a live window is parked, with all windows of it that were
/// found again; and nothing else is.
pub proof fn law_every_other_set_is_parked(
    worksets: Seq<Workset>,
    target: Uuid,
    decisions: Map<Uuid, MatchView>,
    live: Seq<TopLevelWindow>,
)
    ensures
        ({
            let sets = switch_coordinator::sets_to_park(worksets, target, decisions, live);
            &&& forall|k: int|
                0 <= k < sets.len() ==> (#[trigger] sets[k]).set.id != target && worksets.contains(
                    sets[k].set,
                ) && sets[k].windows.len() > 0 && sets[k].windows
                    == switch_coordinator::resolved_of(sets[k].set.windows@, decisions, live)
            &&& forall|i: int|
                0 <= i < worksets.len() && (#[trigger] worksets[i]).id != target
                    && switch_coordinator::resolved_of(
                    worksets[i].windows@,
                    decisions,
                    live,
                ).len() > 0 ==> exists|k: int|
                    0 <= k < sets.len() && (#[trigger] sets[k]).set == worksets[i]
        }),
    decreases worksets.len(),
{
    let sets = switch_coordinator::sets_to_park(worksets, target, decisions, live);
    if worksets.len() > 0 {
        let rest = worksets.drop_last();
        law_every_other_set_is_parked(rest, target, decisions, live);
        let before = switch_coordinator::sets_to_park(rest, target, decisions, live);
        assert forall|k: int| 0 <= k < sets.len() implies (#[trigger] sets[k]).set.id != target
            && worksets.contains(sets[k].set) && sets[k].windows.len() > 0 && sets[k].windows
            == switch_coordinator::resolved_of(sets[k].set.windows@, decisions, live) by {
            if k < before.len() {
                assert(sets[k] == before[k]);
                let j = choose|j: int| 0 <= j < rest.len() && rest[j] == before[k].set;
                assert(worksets[j] == sets[k].set);
            } else {
                assert(worksets[worksets.len() - 1] == sets[k].set);
            }
        }
        assert forall|i: int|
            0 <= i < worksets.len() && (#[trigger] worksets[i]).id != target
                && switch_coordinator::resolved_of(
                worksets[i].windows@,
                decisions,
                live,
            ).len() > 0 implies exists|k: int|
            0 <= k < sets.len() && (#[trigger] sets[k]).set == worksets[i] by {
            if i < rest.len() {
                assert(rest[i] == worksets[i]);
                let k = choose|k: int|
                    0 <= k < before.len() && (#[trigger] before[k]).set == rest[i];
                assert(sets[k] == before[k]);
            } else {
                assert(sets[before.len() as int].set == worksets[i]);
            }
        }
    }
}

// ---------------------------------------------------------------------------
// Full screen
// ---------------------------------------------------------------------------

/// A set is shown in full screen while it is parked: where it asks for that, or the named area that
/// it has to itself does.
pub open spec fn parks_fullscreen(req: RequestView, w: Workset) -> bool {
    match w.parking_policy {
        ParkingPolicy::SubScreen { sub_screen_id } => {
            &&& sub_screens::sharers(req.worksets, sub_screen_id).len() <= 1
            &&& w.fullscreen_when_parked || (switch_coordinator::area_with_id(
                req.sub_screens,
                sub_screen_id,
            ) matches Some(sub) && sub.fullscreen)
        },
        _ => w.fullscreen_when_parked,
    }
}

/// A window of the target is brought back by one call of its own: out of full screen where its set
/// is parked so, and by placing it otherwise; its frame goes to the place that it was registered at.
pub proof fn law_target_comes_out_of_fullscreen(
    req: RequestView,
    target: Workset,
    ws: Seq<Resolved>,
    keys: Seq<isize>,
    i: int,
)
    requires
        0 <= i < ws.len(),
        switch_coordinator::all_have_place(req, ws),
    ensures
        ({
            let calls = switch_coordinator::arrival_calls(req, target, ws, keys);
            let outcome = switch_coordinator::main_place(req, ws[i])->0;
            let maximized = outcome.show_state == SavedShowState::Maximized;
            &&& i < calls.len()
            &&& calls[i] == if parks_fullscreen(req, target) {
                WindowCall::ExitFullscreen {
                    hwnd: ws[i].hwnd,
                    rect: outcome.rect,
                    maximized,
                    fill: false,
                }
            } else {
                WindowCall::SetPlacement {
                    hwnd: ws[i].hwnd,
                    rect: outcome.rect,
                    maximized,
                    fill: false,
                }
            }
        }),
{
    let leaves = switch_coordinator::leaves_fullscreen(req, target);
    assert(leaves == parks_fullscreen(req, target));
    let back = switch_coordinator::bring_back_calls(req, ws, leaves);
    let calls = switch_coordinator::arrival_calls(req, target, ws, keys);
    assert(calls[i] == back[i]);
}

proof fn lemma_moved_handles(
    req: RequestView,
    ws: Seq<Resolved>,
    area: PixelRect,
    n: nat,
    i: int,
)
    requires
        n <= ws.len(),
        0 <= i < ws.len(),
        is_alone(ws, i),
    ensures
        switch_coordinator::handles(
            switch_coordinator::moved_first(req, ws, area, n),
        ).contains(ws[i].hwnd) <==> i < n && switch_coordinator::share_of(req, ws, area, i) is Some,
    decreases n,
{
    let now = switch_coordinator::handles(switch_coordinator::moved_first(req, ws, area, n));
    if n > 0 {
        lemma_moved_handles(req, ws, area, (n - 1) as nat, i);
        let before = switch_coordinator::handles(
            switch_coordinator::moved_first(req, ws, area, (n - 1) as nat),
        );
        if before.contains(ws[i].hwnd) {
            let k = choose|k: int| 0 <= k < before.len() && before[k] == ws[i].hwnd;
            assert(now[k] == ws[i].hwnd);
        }
        if now.contains(ws[i].hwnd) {
            let k = choose|k: int| 0 <= k < now.len() && now[k] == ws[i].hwnd;
            if k < before.len() {
                assert(before[k] == ws[i].hwnd);
            } else if i != n - 1 {
                assert(ws[n - 1].hwnd != ws[i].hwnd);
            }
        }
        if i == n - 1 && switch_coordinator::share_of(req, ws, area, i) is Some {
            assert(now[before.len() as int] == ws[i].hwnd);
        }
    }
}

/// Whether one set's window is to be sent the full-screen keys.
proof fn lemma_keys_of(
    req: RequestView,
    sets: Seq<ParkedSet>,
    slots: Map<Uuid, SlotView>,
    w: Workset,
    ws: Seq<Resolved>,
    i: int,
)
    requires
        switch_coordinator::park_of(
            req,
            switch_coordinator::set_ids(sets),
            slots,
            w,
            ws,
        ).ok,
        0 <= i < ws.len(),
        is_alone(ws, i),
    ensures
        switch_coordinator::park_of(
            req,
            switch_coordinator::set_ids(sets),
            slots,
            w,
            ws,
        ).keys.contains(ws[i].hwnd) <==> parks_fullscreen(req, w) && (cell_of(
            req,
            sets,
            slots,
            w,
        ) matches Some(c) && {
            let shares = parking_cells::cells_for(c, ws.len());
            i < shares.len() && shares[i].width >= 120 && shares[i].height >= 68
        }),
{
    let ids = switch_coordinator::set_ids(sets);
    assert(switch_coordinator::dealing(req, ids, slots) == dealt_by(req, sets, slots));
    if let Some(c) = cell_of(req, sets, slots, w) {
        lemma_moved_handles(req, ws, c, ws.len(), i);
        let cells = parking_cells::cells_for(c, ws.len());
        if i < cells.len() {
            lemma_share(switch_coordinator::main_place(req, ws[i])->0.rect, cells[i]);
        }
    }
}

proof fn lemma_keys_upto(
    req: RequestView,
    sets: Seq<ParkedSet>,
    start: Map<Uuid, SlotView>,
    n: nat,
    k: int,
    i: int,
)
    requires
        dealt::holds_in_memory(dealt_by(req, sets, start)),
        dealt::all_distinct(dealt_by(req, sets, start)),
        n <= sets.len(),
        0 <= k < sets.len(),
        0 <= i < sets[k].windows.len(),
        is_alone(sets[k].windows, i),
        forall|l: int|
            0 <= l < sets.len() && l != k ==> !journaled::is_among(
                (#[trigger] sets[l]).windows,
                sets[k].windows[i].hwnd,
            ),
        switch_coordinator::parked_upto(
            req,
            switch_coordinator::set_ids(sets),
            start,
            sets,
            n,
        ).ok,
    ensures
        switch_coordinator::parked_upto(
            req,
            switch_coordinator::set_ids(sets),
            start,
            sets,
            n,
        ).keys.contains(sets[k].windows[i].hwnd) <==> k < n && parks_fullscreen(
            req,
            sets[k].set,
        ) && (cell_of(req, sets, start, sets[k].set) matches Some(c) && {
            let shares = parking_cells::cells_for(c, sets[k].windows.len());
            i < shares.len() && shares[i].width >= 120 && shares[i].height >= 68
        }),
    decreases n,
{
    if n > 0 {
        let ids = switch_coordinator::set_ids(sets);
        let h = sets[k].windows[i].hwnd;
        let b = switch_coordinator::parked_upto(req, ids, start, sets, (n - 1) as nat);
        assert(b.ok);
        let set = sets[n - 1];
        let p = switch_coordinator::park_of(req, ids, b.slots, set.set, set.windows);
        let now = b.keys + p.keys;
        lemma_keys_upto(req, sets, start, (n - 1) as nat, k, i);
        if k == n - 1 {
            lemma_cells_stay(req, sets, start, (n - 1) as nat, set.set);
            lemma_keys_of(req, sets, b.slots, set.set, set.windows, i);
        } else {
            journaled::law_parking_changes_own_windows_only(
                req,
                ids,
                b.slots,
                set.set,
                set.windows,
            );
            assert(!journaled::is_among(sets[n - 1].windows, h));
            if p.keys.contains(h) {
                let x = choose|x: int| 0 <= x < p.keys.len() && p.keys[x] == h;
                assert(journaled::is_among(set.windows, p.keys[x]));
            }
        }
        if now.contains(h) {
            let x = choose|x: int| 0 <= x < now.len() && now[x] == h;
            if x < b.keys.len() {
                assert(b.keys[x] == h);
            } else {
                assert(p.keys[x - b.keys.len()] == h);
            }
        }
        if b.keys.contains(h) {
            let x = choose|x: int| 0 <= x < b.keys.len() && b.keys[x] == h;
            assert(now[x] == h);
        }
        if p.keys.contains(h) {
            let x = choose|x: int| 0 <= x < p.keys.len() && p.keys[x] == h;
            assert(now[b.keys.len() + x] == h);
        }
    }
}

/// A parked window is sent the full-screen keys exactly where its set is parked in full screen and
/// the window is shown in its cell.
pub proof fn law_fullscreen_keys_go_to_shown_windows<'a>(
    req: RequestView,
    p: PendingSwitch<'a>,
    k: int,
    i: int,
)
    requires
        switch_coordinator::failure_of(req, p) is None,
        req.worksets.len() <= usize::MAX,
        req.live_monitors.len() <= usize::MAX,
        parking_allocator::distinct_sets(req.worksets),
        parking_allocator::distinct_names(req.live_monitors),
        0 <= k < p.parking@.len(),
        0 <= i < p.parking@[k].windows@.len(),
        is_alone(switch_coordinator::resolved_view(p.parking@[k].windows@), i),
        forall|l: int|
            0 <= l < p.parking@.len() && l != k ==> !journaled::is_among(
                switch_coordinator::resolved_view((#[trigger] p.parking@[l]).windows@),
                p.parking@[k].windows@[i].hwnd,
            ),
    ensures
        switch_coordinator::departure(req, p).keys.contains(p.parking@[k].windows@[i].hwnd) <==> {
            &&& parks_fullscreen(req, *p.parking@[k].set)
            &&& cell_of(
                req,
                switch_coordinator::parking_view(p.parking@),
                switch_coordinator::decoded(p.runtime.auto_slot_assignments@),
                *p.parking@[k].set,
            ) matches Some(c)
            &&& {
                let shares = parking_cells::cells_for(c, p.parking@[k].windows@.len());
                i < shares.len() && shares[i].width >= 120 && shares[i].height >= 68
            }
        },
{
    let sets = switch_coordinator::parking_view(p.parking@);
    let start = switch_coordinator::decoded(p.runtime.auto_slot_assignments@);
    assert(sets[k] == p.parking@[k]@);
    assert(sets[k].windows[i] == p.parking@[k].windows@[i]@);
    assert forall|l: int| 0 <= l < sets.len() && l != k implies !journaled::is_among(
        (#[trigger] sets[l]).windows,
        sets[k].windows[i].hwnd,
    ) by {
        assert(sets[l] == p.parking@[l]@);
    }
    lemma_keys_upto(req, sets, start, sets.len(), k, i);
}

} // verus!
