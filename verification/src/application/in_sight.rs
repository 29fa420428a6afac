//! What a switch puts where can be seen: no window ends up off all screens.

use vstd::prelude::*;

use crate::application::main_placement;
use crate::application::monitor_resolution;
use crate::application::parking_allocator;
use crate::application::parking_allocator::{AssignmentView, SlotView};
use crate::application::parking_cells;
use crate::application::parking_placement;
use crate::application::sub_screens;
use crate::application::switch_coordinator;
use crate::application::switch_coordinator::{
    ParkedSet, PendingSwitch, RequestView, Resolved,
};
use crate::application::window_ops::WindowCall;
use crate::domain::monitor::MonitorInfo;
use crate::domain::placement;
use crate::domain::placement::PixelRect;
use crate::domain::workset::{ParkingPolicy, SubScreen, Workset};
use crate::ids::Uuid;

verus! {

/// Every pixel of the rectangle lies in the work area of a connected monitor.
pub open spec fn on_screen(rect: PixelRect, live: Seq<MonitorInfo>) -> bool {
    forall|px: int, py: int| #[trigger] rect.covers(px, py) ==> exists|m: int|
        0 <= m < live.len() && (#[trigger] live[m]).work_area_px.covers(px, py)
}

/// Some of the rectangle lies in the work area of a connected monitor.
pub open spec fn can_be_seen(rect: PixelRect, live: Seq<MonitorInfo>) -> bool {
    exists|m: int| 0 <= m < live.len() && rect.meets((#[trigger] live[m]).work_area_px)
}

/// A parked window lies wholly on the screens, and one that is brought back can be seen.
pub open spec fn keeps_in_sight(call: WindowCall, live: Seq<MonitorInfo>) -> bool {
    match call {
        WindowCall::SetPlacement { rect, fill, .. } => can_be_seen(rect, live) && (fill
            ==> on_screen(rect, live)),
        WindowCall::ExitFullscreen { rect, .. } => can_be_seen(rect, live),
        WindowCall::BatchMove { .. } => false,
        _ => true,
    }
}

pub open spec fn all_in_sight(calls: Seq<WindowCall>, live: Seq<MonitorInfo>) -> bool {
    forall|i: int| 0 <= i < calls.len() ==> keeps_in_sight(#[trigger] calls[i], live)
}

/// The region of a named area holds no pixel between its monitors.
pub open spec fn region_on_screen(sub: SubScreen, live: Seq<MonitorInfo>) -> bool {
    match sub_screens::region_of(sub, live) {
        Some(region) => on_screen(region, live),
        None => true,
    }
}

/// Every connected monitor has a work area.
pub open spec fn all_have_area(live: Seq<MonitorInfo>) -> bool {
    forall|m: int|
        0 <= m < live.len() ==> (#[trigger] live[m]).work_area_px.width > 0
            && live[m].work_area_px.height > 0
}

/// A lone window that is not minimized takes its whole cell, which then is not empty.
proof fn lemma_fitted(rect: PixelRect, cell: PixelRect)
    ensures
        switch_coordinator::fitted(rect, cell) matches Some(r) ==> r == cell && cell.width > 0
            && cell.height > 0,
{
    placement::lemma_bounds_of_one(rect);
    placement::lemma_map_own_bounds(rect, parking_placement::usable(cell));
    let s = parking_placement::shrunk(seq![rect], cell);
    assert(s.len() == 1);
    assert(s[0] == parking_placement::usable(cell));
    if switch_coordinator::fitted(rect, cell) is Some {
        assert(!parking_placement::too_small(s[0]));
    }
}

/// What lies on screen and is not empty can be seen.
proof fn lemma_on_screen_is_seen(rect: PixelRect, live: Seq<MonitorInfo>)
    requires
        rect.width > 0,
        rect.height > 0,
        on_screen(rect, live),
    ensures
        can_be_seen(rect, live),
{
    assert(rect.covers(rect.x as int, rect.y as int));
    let m = choose|m: int|
        0 <= m < live.len() && (#[trigger] live[m]).work_area_px.covers(
            rect.x as int,
            rect.y as int,
        );
    assert(rect.meets(live[m].work_area_px));
}

proof fn lemma_within_on_screen(inner: PixelRect, outer: PixelRect, live: Seq<MonitorInfo>)
    requires
        parking_allocator::lies_within(inner, outer),
        on_screen(outer, live),
    ensures
        on_screen(inner, live),
{
    assert forall|px: int, py: int| #[trigger] inner.covers(px, py) implies exists|m: int|
        0 <= m < live.len() && (#[trigger] live[m]).work_area_px.covers(px, py) by {
        assert(outer.covers(px, py));
    }
}

proof fn lemma_one_monitor_on_screen(rect: PixelRect, live: Seq<MonitorInfo>)
    requires
        parking_allocator::on_one_monitor(rect, live),
    ensures
        on_screen(rect, live),
{
    let m = choose|m: MonitorInfo| #[trigger]
        live.contains(m) && parking_allocator::lies_within(rect, m.work_area_px);
    let k = choose|k: int| 0 <= k < live.len() && live[k] == m;
    assert forall|px: int, py: int| #[trigger] rect.covers(px, py) implies exists|j: int|
        0 <= j < live.len() && (#[trigger] live[j]).work_area_px.covers(px, py) by {
        assert(live[k].work_area_px.covers(px, py));
    }
}

proof fn lemma_moved_in_sight(req: RequestView, ws: Seq<Resolved>, area: PixelRect, n: nat)
    requires
        n <= ws.len(),
        area.fits(),
        on_screen(area, req.live_monitors),
    ensures
        all_in_sight(
            switch_coordinator::fill_calls(switch_coordinator::moved_first(req, ws, area, n)),
            req.live_monitors,
        ),
        all_in_sight(
            switch_coordinator::minimized_first(req, ws, area, n),
            req.live_monitors,
        ),
    decreases n,
{
    let live = req.live_monitors;
    if n > 0 {
        lemma_moved_in_sight(req, ws, area, (n - 1) as nat);
        let cells = parking_cells::cells_for(area, ws.len());
        let before = switch_coordinator::moved_first(req, ws, area, (n - 1) as nat);
        let now = switch_coordinator::moved_first(req, ws, area, n);
        let calls = switch_coordinator::fill_calls(now);
        assert forall|i: int| 0 <= i < calls.len() implies keeps_in_sight(
            #[trigger] calls[i],
            live,
        ) by {
            if i < before.len() {
                assert(now[i] == before[i]);
                assert(calls[i] == switch_coordinator::fill_calls(before)[i]);
            } else {
                let rect = switch_coordinator::main_place(req, ws[n - 1])->0.rect;
                lemma_fitted(rect, cells[n - 1]);
                parking_cells::law_cells_tile_the_region(area, ws.len());
                assert(parking_allocator::lies_within(cells[n - 1], area));
                lemma_within_on_screen(cells[n - 1], area, live);
                lemma_on_screen_is_seen(cells[n - 1], live);
                assert(now[i].1 == cells[n - 1]);
            }
        }
    }
}

proof fn lemma_parked_in_sight(
    req: RequestView,
    ws: Seq<Resolved>,
    area: PixelRect,
    fullscreen: bool,
    slots: Map<Uuid, SlotView>,
    dealt: bool,
)
    requires
        area.fits(),
        on_screen(area, req.live_monitors),
    ensures
        all_in_sight(
            switch_coordinator::parked_in(req, ws, area, fullscreen, slots, dealt).calls,
            req.live_monitors,
        ),
{
    lemma_moved_in_sight(req, ws, area, ws.len());
    lemma_joined_in_sight(
        switch_coordinator::minimized_first(req, ws, area, ws.len()),
        switch_coordinator::fill_calls(
            switch_coordinator::moved_first(req, ws, area, ws.len()),
        ),
        req.live_monitors,
    );
}

proof fn lemma_joined_in_sight(a: Seq<WindowCall>, b: Seq<WindowCall>, live: Seq<MonitorInfo>)
    requires
        all_in_sight(a, live),
        all_in_sight(b, live),
    ensures
        all_in_sight(a + b, live),
{
    assert forall|i: int| 0 <= i < (a + b).len() implies keeps_in_sight(
        #[trigger] (a + b)[i],
        live,
    ) by {
        if i < a.len() {
            assert((a + b)[i] == a[i]);
        } else {
            assert((a + b)[i] == b[i - a.len()]);
        }
    }
}

proof fn lemma_area_with_id(subs: Seq<SubScreen>, id: Uuid)
    ensures
        switch_coordinator::area_with_id(subs, id) matches Some(sub) ==> subs.contains(sub),
    decreases subs.len(),
{
    if subs.len() > 0 {
        if subs[0].id == id {
            assert(subs.contains(subs[0]));
        } else {
            let rest = subs.skip(1);
            lemma_area_with_id(rest, id);
            if let Some(sub) = switch_coordinator::area_with_id(rest, id) {
                let k = choose|k: int| 0 <= k < rest.len() && rest[k] == sub;
                assert(subs[k + 1] == sub);
            }
        }
    }
}

/// A set that is parked leaves all its windows on the screens, or minimized.
pub proof fn law_parked_set_stays_on_screen(
    req: RequestView,
    with_windows: Set<Uuid>,
    slots: Map<Uuid, SlotView>,
    w: Workset,
    ws: Seq<Resolved>,
)
    requires
        req.worksets.len() <= usize::MAX,
        req.live_monitors.len() <= usize::MAX,
        parking_allocator::monitors_fit(req.live_monitors),
        forall|i: int|
            0 <= i < req.sub_screens.len() ==> region_on_screen(
                #[trigger] req.sub_screens[i],
                req.live_monitors,
            ),
    ensures
        all_in_sight(
            switch_coordinator::park_of(req, with_windows, slots, w, ws).calls,
            req.live_monitors,
        ),
{
    let live = req.live_monitors;
    match w.parking_policy {
        ParkingPolicy::SubScreen { sub_screen_id } => {
            lemma_area_with_id(req.sub_screens, sub_screen_id);
            if let Some(sub) = switch_coordinator::area_with_id(req.sub_screens, sub_screen_id) {
                let k = choose|k: int| 0 <= k < req.sub_screens.len() && req.sub_screens[k] == sub;
                assert(region_on_screen(req.sub_screens[k], live));
                if let Some(rect) = sub_screens::slot_rect_of(sub, req.worksets, w.id, live) {
                    sub_screens::law_cell_lies_in_the_region(sub, req.worksets, w.id, live);
                    lemma_within_on_screen(rect, sub_screens::region_of(sub, live)->0, live);
                    lemma_parked_in_sight(
                        req,
                        ws,
                        rect,
                        switch_coordinator::fills_area(req, w, sub_screen_id),
                        slots,
                        false,
                    );
                }
            }
        },
        _ => {
            let input = switch_coordinator::dealing(req, with_windows, slots);
            let (places, dealt) = parking_allocator::allocation(input);
            if places.contains_key(w.id) {
                parking_allocator::law_dealt_cells_lie_on_a_monitor(input, w.id);
                match places[w.id] {
                    AssignmentView::Auto(_, rect) => {
                        lemma_one_monitor_on_screen(rect, live);
                        lemma_parked_in_sight(
                            req,
                            ws,
                            rect,
                            w.fullscreen_when_parked,
                            dealt,
                            true,
                        );
                    },
                    AssignmentView::Fixed(_, rect) => {
                        lemma_one_monitor_on_screen(rect, live);
                        lemma_parked_in_sight(
                            req,
                            ws,
                            rect,
                            w.fullscreen_when_parked,
                            dealt,
                            true,
                        );
                    },
                    AssignmentView::Minimized => {},
                }
            }
        },
    }
}

proof fn lemma_parked_upto_in_sight(
    req: RequestView,
    with_windows: Set<Uuid>,
    slots: Map<Uuid, SlotView>,
    sets: Seq<ParkedSet>,
    n: nat,
)
    requires
        n <= sets.len(),
        req.worksets.len() <= usize::MAX,
        req.live_monitors.len() <= usize::MAX,
        parking_allocator::monitors_fit(req.live_monitors),
        forall|i: int|
            0 <= i < req.sub_screens.len() ==> region_on_screen(
                #[trigger] req.sub_screens[i],
                req.live_monitors,
            ),
    ensures
        all_in_sight(
            switch_coordinator::parked_upto(req, with_windows, slots, sets, n).calls,
            req.live_monitors,
        ),
    decreases n,
{
    if n > 0 {
        lemma_parked_upto_in_sight(req, with_windows, slots, sets, (n - 1) as nat);
        let b = switch_coordinator::parked_upto(req, with_windows, slots, sets, (n - 1) as nat);
        if b.ok {
            let set = sets[n - 1];
            law_parked_set_stays_on_screen(req, with_windows, b.slots, set.set, set.windows);
            let p = switch_coordinator::park_of(
                req,
                with_windows,
                b.slots,
                set.set,
                set.windows,
            );
            lemma_joined_in_sight(b.calls, p.calls, req.live_monitors);
        }
    }
}

proof fn lemma_eviction_screens(req: RequestView, n: nat)
    requires
        n <= req.live_monitors.len(),
        parking_allocator::monitors_fit(req.live_monitors),
    ensures
        parking_cells::all_fit(switch_coordinator::eviction_screens(req, n)),
        forall|i: int|
            0 <= i < switch_coordinator::eviction_screens(req, n).len() ==> exists|m: int|
                0 <= m < n && (#[trigger] req.live_monitors[m]).work_area_px
                    == #[trigger] switch_coordinator::eviction_screens(req, n)[i],
    decreases n,
{
    if n > 0 {
        lemma_eviction_screens(req, (n - 1) as nat);
        let before = switch_coordinator::eviction_screens(req, (n - 1) as nat);
        let now = switch_coordinator::eviction_screens(req, n);
        assert(req.live_monitors[n - 1].work_area_px.fits());
        assert forall|i: int| 0 <= i < now.len() implies exists|m: int|
            0 <= m < n && (#[trigger] req.live_monitors[m]).work_area_px == #[trigger] now[i] by {
            if i < before.len() {
                assert(now[i] == before[i]);
                let m = choose|m: int|
                    0 <= m < n - 1 && (#[trigger] req.live_monitors[m]).work_area_px == before[i];
                assert(req.live_monitors[m].work_area_px == now[i]);
            } else {
                assert(req.live_monitors[n - 1].work_area_px == now[i]);
            }
        }
    }
}

/// A window that is moved out of the way stays on the screens, or is minimized.
pub proof fn law_evicted_window_stays_on_screen(req: RequestView, evictees: Seq<Resolved>)
    requires
        parking_allocator::monitors_fit(req.live_monitors),
    ensures
        all_in_sight(
            switch_coordinator::eviction_calls(req, evictees),
            req.live_monitors,
        ),
{
    let live = req.live_monitors;
    if evictees.len() > 0 {
        let screens = switch_coordinator::eviction_screens(req, live.len());
        lemma_eviction_screens(req, live.len());
        let windows = switch_coordinator::resolved_handles(evictees);
        let (held, over) = parking_cells::spread(screens, windows);
        parking_cells::law_spread_keeps_capacity(screens, windows);
        parking_cells::lemma_placements_on_screens(screens, held, screens.len());
        let placed = parking_cells::placements_upto(screens, held, screens.len());
        let calls = switch_coordinator::eviction_calls(req, evictees);
        assert forall|i: int| 0 <= i < calls.len() implies keeps_in_sight(
            #[trigger] calls[i],
            live,
        ) by {
            if i < placed.len() {
                let cell = placed[i].1;
                assert(calls[i] == switch_coordinator::eviction_call(req.live_windows, placed[i]));
                assert(on_screen(cell, live)) by {
                    assert(parking_cells::on_screens(placed[i].1, screens, screens.len() as int));
                    assert forall|px: int, py: int| #[trigger]
                        cell.covers(px, py) implies exists|m: int|
                        0 <= m < live.len() && (#[trigger] live[m]).work_area_px.covers(
                            px,
                            py,
                        ) by {
                        let j = choose|j: int|
                            0 <= j < screens.len() && #[trigger] screens[j].covers(px, py);
                        let m = choose|m: int|
                            0 <= m < live.len() && (#[trigger] live[m]).work_area_px == screens[j];
                        assert(live[m].work_area_px.covers(px, py));
                    }
                }
                if let Some(l) = crate::windowing::enumerate::live_at(
                    req.live_windows,
                    placed[i].0,
                ) {
                    lemma_fitted(l.rect_px, cell);
                    if switch_coordinator::fitted(l.rect_px, cell) is Some {
                        lemma_on_screen_is_seen(cell, live);
                    }
                }
            }
        }
    }
}

proof fn lemma_first_live_is_live(live: Seq<MonitorInfo>, ids: Seq<String>)
    ensures
        monitor_resolution::first_live(live, ids) matches Some(m) ==> live.contains(m),
    decreases ids.len(),
{
    if ids.len() > 0 {
        monitor_resolution::lemma_live_monitor(live, ids[0]@);
        lemma_first_live_is_live(live, ids.skip(1));
    }
}

/// A window that is brought back to the main screen can be seen.
pub proof fn law_restored_window_can_be_seen(req: RequestView, w: Resolved)
    requires
        parking_allocator::monitors_fit(req.live_monitors),
        all_have_area(req.live_monitors),
        switch_coordinator::main_place(req, w) is Some,
    ensures
        can_be_seen(switch_coordinator::main_place(req, w)->0.rect, req.live_monitors),
{
    let live = req.live_monitors;
    let ids = req.main_monitor_ids;
    let saved = w.managed.main_placement;
    main_placement::law_restored_window_is_reachable(saved, live, ids);
    lemma_first_live_is_live(live, ids);
    let index = saved.main_monitor_index;
    if index < ids.len() {
        monitor_resolution::lemma_live_monitor(live, ids[index as int]@);
    }
    let home = main_placement::home_monitor(index, live, ids)->0;
    assert(live.contains(home));
    let k = choose|k: int| 0 <= k < live.len() && live[k] == home;
    assert(live[k].work_area_px.fits());
}

/// A switch that goes through leaves no window off all screens: whatever it parks or moves out of
/// the way lies wholly in the work areas of connected monitors or is minimized, and whatever it
/// brings back reaches into one.
pub proof fn law_switch_leaves_nothing_off_screen<'a>(
    req: RequestView,
    p: PendingSwitch<'a>,
    target: Workset,
    keys: Seq<isize>,
)
    requires
        req.worksets.len() <= usize::MAX,
        req.live_monitors.len() <= usize::MAX,
        parking_allocator::monitors_fit(req.live_monitors),
        all_have_area(req.live_monitors),
        forall|i: int|
            0 <= i < req.sub_screens.len() ==> region_on_screen(
                #[trigger] req.sub_screens[i],
                req.live_monitors,
            ),
        switch_coordinator::failure_of(req, p) is None,
    ensures
        all_in_sight(switch_coordinator::departure_calls(req, p), req.live_monitors),
        all_in_sight(
            switch_coordinator::arrival_calls(
                req,
                target,
                switch_coordinator::resolved_view(p.target_windows@),
                keys,
            ),
            req.live_monitors,
        ),
{
    let live = req.live_monitors;
    let sets = switch_coordinator::parking_view(p.parking@);
    let ev = switch_coordinator::resolved_view(p.evictees@);
    law_evicted_window_stays_on_screen(req, ev);
    lemma_parked_upto_in_sight(
        req,
        switch_coordinator::set_ids(sets),
        switch_coordinator::decoded(p.runtime.auto_slot_assignments@),
        sets,
        sets.len(),
    );
    lemma_joined_in_sight(
        switch_coordinator::eviction_calls(req, ev),
        switch_coordinator::departure(req, p).calls,
        live,
    );
    let ws = switch_coordinator::resolved_view(p.target_windows@);
    let leaves = switch_coordinator::leaves_fullscreen(req, target);
    let o = switch_coordinator::by_height(ws);
    let focus = switch_coordinator::top_handle(ws, o);
    let back = switch_coordinator::bring_back_calls(req, ws, leaves);
    assert forall|i: int| 0 <= i < back.len() implies keeps_in_sight(#[trigger] back[i], live) by {
        assert(switch_coordinator::main_place(req, ws[i]) is Some);
        law_restored_window_can_be_seen(req, ws[i]);
    }
    let stack = switch_coordinator::stack_calls(ws, o);
    lemma_joined_in_sight(back, stack, live);
    lemma_joined_in_sight(back + stack, switch_coordinator::focus_calls(focus), live);
    lemma_joined_in_sight(
        back + stack + switch_coordinator::focus_calls(focus),
        switch_coordinator::key_calls(keys, focus),
        live,
    );
}

} // verus!
