//! Windows that sit where another set is about to be parked: who has to leave, and where to.

use vstd::prelude::*;

use crate::application::journaled;
use crate::application::parking_allocator;
use crate::application::parking_cells;
use crate::application::sub_screens;
use crate::application::switch_coordinator;
use crate::application::switch_coordinator::{RequestView, Resolved};
use crate::application::switched;
use crate::application::window_ops::WindowCall;
use crate::application::workset_service;
use crate::domain::monitor::MonitorInfo;
use crate::domain::placement::PixelRect;
use crate::domain::workset::{ManagedWindow, ParkingPolicy, Workset};
use crate::ids::Uuid;
use crate::windowing::enumerate;
use crate::windowing::enumerate::TopLevelWindow;
use crate::windowing::matcher::MatchView;

verus! {

/// A monitor of general parking: it is no main monitor, the user has not excluded it, and no named
/// area has it.
pub open spec fn is_general(req: RequestView, m: MonitorInfo) -> bool {
    &&& forall|i: int|
        0 <= i < req.main_monitor_ids.len() ==> (#[trigger] req.main_monitor_ids[i])@
            != m.device_name@
    &&& forall|i: int|
        0 <= i < req.saved_monitors.len() && req.saved_monitors[i].excluded ==> (
        #[trigger] req.saved_monitors[i]).stable_id@ != m.device_name@
    &&& forall|i: int, j: int|
        0 <= i < req.sub_screens.len() && 0 <= j < req.sub_screens[i].monitor_ids@.len() ==> (
        #[trigger] req.sub_screens[i].monitor_ids@[j])@ != m.device_name@
}

proof fn lemma_takes_evictees(req: RequestView, m: MonitorInfo)
    ensures
        switch_coordinator::takes_evictees(req, m) <==> is_general(req, m),
{
    switched::law_area_monitors_are_those_named(req.sub_screens, m.device_name@);
}

/// A screen that evicted windows are spread over is one of general parking.
proof fn lemma_screen_origin(req: RequestView, n: nat, k: int) -> (m: int)
    requires
        n <= req.live_monitors.len(),
        0 <= k < switch_coordinator::eviction_screens(req, n).len(),
    ensures
        0 <= m < n,
        is_general(req, req.live_monitors[m]),
        req.live_monitors[m].work_area_px == switch_coordinator::eviction_screens(req, n)[k],
    decreases n,
{
    let before = switch_coordinator::eviction_screens(req, (n - 1) as nat);
    lemma_takes_evictees(req, req.live_monitors[n - 1]);
    if k < before.len() {
        lemma_screen_origin(req, (n - 1) as nat, k)
    } else {
        n - 1
    }
}

/// Evicted windows are spread over every monitor of general parking.
pub proof fn law_every_general_monitor_takes_evicted_windows(req: RequestView, n: nat, m: int) -> (k:
    int)
    requires
        n <= req.live_monitors.len(),
        0 <= m < n,
        is_general(req, req.live_monitors[m]),
    ensures
        0 <= k < switch_coordinator::eviction_screens(req, n).len(),
        switch_coordinator::eviction_screens(req, n)[k] == req.live_monitors[m].work_area_px,
    decreases n,
{
    let before = switch_coordinator::eviction_screens(req, (n - 1) as nat);
    lemma_takes_evictees(req, req.live_monitors[n - 1]);
    if m < n - 1 {
        law_every_general_monitor_takes_evicted_windows(req, (n - 1) as nat, m)
    } else {
        before.len() as int
    }
}

/// Where a window is once all are spread: on a screen, or turned away.
pub proof fn lemma_spread_has(screens: Seq<PixelRect>, windows: Seq<isize>, j: int) -> (r: (int, int))
    requires
        0 <= j < windows.len(),
    ensures
        ({
            let (held, over) = parking_cells::spread(screens, windows);
            ||| 0 <= r.0 < screens.len() && 0 <= r.1 < held[r.0].len() && held[r.0][r.1]
                == windows[j]
            ||| r.0 == -1 && 0 <= r.1 < over.len() && over[r.1] == windows[j]
        }),
    decreases windows.len(),
{
    let before = windows.drop_last();
    let (held, over) = parking_cells::spread(screens, before);
    parking_cells::law_spread_keeps_capacity(screens, before);
    parking_cells::lemma_best_screen(screens, held, screens.len());
    if j < windows.len() - 1 {
        lemma_spread_has(screens, before, j)
    } else {
        match parking_cells::best_screen(screens, held, screens.len()) {
            Some(i) => (i, held[i].len() as int),
            None => (-1, over.len() as int),
        }
    }
}

/// Where a window on a screen is listed among all placements.
pub proof fn lemma_placed_at(screens: Seq<PixelRect>, held: Seq<Seq<isize>>, n: nat, x: int, k: int) -> (
    at: int)
    requires
        n <= held.len(),
        0 <= x < n,
        0 <= k < held[x].len(),
    ensures
        0 <= at < parking_cells::placements_upto(screens, held, n).len(),
        parking_cells::placements_upto(screens, held, n)[at] == (
            held[x][k],
            parking_cells::cells_for(screens[x], held[x].len())[k],
        ),
    decreases n,
{
    let before = parking_cells::placements_upto(screens, held, (n - 1) as nat);
    if x < n - 1 {
        lemma_placed_at(screens, held, (n - 1) as nat, x, k)
    } else {
        before.len() + k
    }
}

/// Every window that has to leave is moved onto a monitor of general parking, where it fills a cell
/// of that monitor's work area. It is minimized only where it is gone, where its cell is smaller
/// than 120 by 68 pixels, or where every monitor of general parking is full: with six windows where
/// a side has at least 2400 pixels, and with four otherwise.
pub proof fn law_evicted_windows_go_to_general_parking(
    req: RequestView,
    evictees: Seq<Resolved>,
    j: int,
)
    requires
        parking_allocator::monitors_fit(req.live_monitors),
        0 <= j < evictees.len(),
    ensures
        ({
            let h = evictees[j].hwnd;
            let calls = switch_coordinator::eviction_calls(req, evictees);
            let screens = switch_coordinator::eviction_screens(req, req.live_monitors.len());
            let held = parking_cells::spread(
                screens,
                switch_coordinator::resolved_handles(evictees),
            ).0;
            ||| exists|m: int, rect: PixelRect|
                {
                    &&& 0 <= m < req.live_monitors.len()
                    &&& is_general(req, #[trigger] req.live_monitors[m])
                    &&& parking_allocator::lies_within(
                        rect,
                        req.live_monitors[m].work_area_px,
                    )
                    &&& rect.width >= 120 && rect.height >= 68
                    &&& #[trigger] calls.contains(
                        WindowCall::SetPlacement { hwnd: h, rect, maximized: false, fill: true },
                    )
                }
            ||| calls.contains(WindowCall::Minimize { hwnd: h }) && enumerate::live_at(
                req.live_windows,
                h,
            ) is None
            ||| calls.contains(WindowCall::Minimize { hwnd: h }) && exists|x: int, k: int|
                {
                    let cell = parking_cells::cells_for(screens[x], held[x].len())[k];
                    &&& 0 <= x < screens.len()
                    &&& 0 <= k < held[x].len()
                    &&& #[trigger] held[x][k] == h
                    &&& cell.width < 120 || cell.height < 68
                }
            ||| calls.contains(WindowCall::Minimize { hwnd: h }) && forall|x: int|
                0 <= x < screens.len() ==> (#[trigger] held[x]).len() == if screens[x].width
                    >= 2400 || screens[x].height >= 2400 {
                    6nat
                } else {
                    4nat
                }
        }),
{
    let h = evictees[j].hwnd;
    let n = req.live_monitors.len();
    let screens = switch_coordinator::eviction_screens(req, n);
    let windows = switch_coordinator::resolved_handles(evictees);
    let (held, over) = parking_cells::spread(screens, windows);
    let placed = parking_cells::placements_upto(screens, held, screens.len());
    let calls = switch_coordinator::eviction_calls(req, evictees);
    parking_cells::law_spread_keeps_capacity(screens, windows);
    let (x, k) = lemma_spread_has(screens, windows, j);
    assert(windows[j] == h);
    if x == -1 {
        assert(calls[placed.len() + k] == (WindowCall::Minimize { hwnd: h }));
        parking_cells::law_overflow_only_when_full(screens, windows);
    } else {
        let at = lemma_placed_at(screens, held, screens.len(), x, k);
        let cell = parking_cells::cells_for(screens[x], held[x].len())[k];
        assert(calls[at] == switch_coordinator::eviction_call(req.live_windows, placed[at]));
        let m = lemma_screen_origin(req, n, x);
        assert(req.live_monitors[m].work_area_px.fits());
        parking_cells::lemma_cells_for_len(screens[x], held[x].len());
        parking_cells::law_cells_tile_the_region(screens[x], held[x].len());
        let cells = parking_cells::cells_for(screens[x], held[x].len());
        assert(parking_allocator::lies_within(cells[k], screens[x]));
        match enumerate::live_at(req.live_windows, h) {
            Some(l) => {
                switched::lemma_share(l.rect_px, cell);
                if cell.width >= 120 && cell.height >= 68 {
                    let call = WindowCall::SetPlacement {
                        hwnd: h,
                        rect: cell,
                        maximized: false,
                        fill: true,
                    };
                    assert(calls[at] == call);
                    assert(calls.contains(call));
                    assert(is_general(req, req.live_monitors[m]));
                } else {
                    assert(calls[at] == (WindowCall::Minimize { hwnd: h }));
                    assert(held[x][k] == h);
                }
            },
            None => {
                assert(calls[at] == (WindowCall::Minimize { hwnd: h }));
            },
        }
    }
}

// ---------------------------------------------------------------------------
// Who has to leave
// ---------------------------------------------------------------------------

proof fn lemma_managed_live(
    windows: Seq<ManagedWindow>,
    decisions: Map<Uuid, MatchView>,
    live: Seq<TopLevelWindow>,
    h: isize,
    rect: PixelRect,
)
    ensures
        switch_coordinator::managed_live(windows, decisions, live).contains((h, rect)) <==> exists|
            i: int,
        |
            0 <= i < windows.len() && workset_service::handle_of(
                decisions,
                (#[trigger] windows[i]).id,
            ) == Some(h) && (enumerate::live_at(live, h) matches Some(l) && l.rect_px == rect),
    decreases windows.len(),
{
    let all = switch_coordinator::managed_live(windows, decisions, live);
    if windows.len() > 0 {
        let rest = windows.drop_last();
        lemma_managed_live(rest, decisions, live, h, rect);
        let before = switch_coordinator::managed_live(rest, decisions, live);
        let n = windows.len() - 1;
        assert(windows[n] == windows.last());
        if all.contains((h, rect)) {
            let k = choose|k: int| 0 <= k < all.len() && all[k] == (h, rect);
            if k < before.len() {
                assert(before[k] == (h, rect));
                let i = choose|i: int|
                    0 <= i < rest.len() && workset_service::handle_of(
                        decisions,
                        (#[trigger] rest[i]).id,
                    ) == Some(h) && (enumerate::live_at(live, h) matches Some(l) && l.rect_px
                        == rect);
                assert(windows[i] == rest[i]);
            }
        }
        if exists|i: int|
            0 <= i < windows.len() && workset_service::handle_of(
                decisions,
                (#[trigger] windows[i]).id,
            ) == Some(h) && (enumerate::live_at(live, h) matches Some(l) && l.rect_px == rect) {
            let i = choose|i: int|
                0 <= i < windows.len() && workset_service::handle_of(
                    decisions,
                    (#[trigger] windows[i]).id,
                ) == Some(h) && (enumerate::live_at(live, h) matches Some(l) && l.rect_px
                    == rect);
            if i < n {
                assert(rest[i] == windows[i]);
                let k = choose|k: int| 0 <= k < before.len() && before[k] == (h, rect);
                assert(all[k] == (h, rect));
            } else {
                assert(all[before.len() as int] == (h, rect));
            }
        }
    }
}

proof fn lemma_handle_set(ws: Seq<Resolved>, h: isize)
    ensures
        switch_coordinator::handle_set(ws).contains(h) <==> journaled::is_among(ws, h),
    decreases ws.len(),
{
    if ws.len() > 0 {
        let rest = ws.drop_last();
        lemma_handle_set(rest, h);
        if journaled::is_among(rest, h) {
            let i = choose|i: int| 0 <= i < rest.len() && (#[trigger] rest[i]).hwnd == h;
            assert(ws[i].hwnd == h);
        }
        if journaled::is_among(ws, h) {
            let i = choose|i: int| 0 <= i < ws.len() && (#[trigger] ws[i]).hwnd == h;
            if i < rest.len() {
                assert(rest[i].hwnd == h);
            }
        }
        if ws.last().hwnd == h {
            assert(ws[ws.len() - 1].hwnd == h);
        }
    }
}

proof fn lemma_holder_has_handle(ws: Seq<Resolved>, h: isize)
    requires
        journaled::is_among(ws, h),
    ensures
        switch_coordinator::holder_of(ws, h) is Some,
        switch_coordinator::holder_of(ws, h)->0.hwnd == h,
    decreases ws.len(),
{
    let i = choose|i: int| 0 <= i < ws.len() && (#[trigger] ws[i]).hwnd == h;
    if ws[0].hwnd != h {
        let rest = ws.skip(1);
        assert(rest[i - 1].hwnd == h);
        lemma_holder_has_handle(rest, h);
    }
}

/// A window has to leave exactly where the outgoing set parks in a cell of a named area, and the
/// window is a registered, live one that lies on that cell and belongs neither to the outgoing set
/// nor to the incoming one.
pub proof fn law_who_has_to_leave(
    req: RequestView,
    decisions: Map<Uuid, MatchView>,
    current: Option<Workset>,
    outgoing: Seq<Resolved>,
    incoming: Seq<Resolved>,
    h: isize,
)
    ensures
        journaled::is_among(
            switch_coordinator::evictees_of(
                req,
                decisions,
                current,
                switch_coordinator::handle_set(outgoing).union(
                    switch_coordinator::handle_set(incoming),
                ),
            ),
            h,
        ) <==> {
            &&& current matches Some(c)
            &&& c.parking_policy matches ParkingPolicy::SubScreen { sub_screen_id }
            &&& switch_coordinator::area_with_id(req.sub_screens, sub_screen_id) matches Some(sub)
            &&& sub_screens::slot_rect_of(
                sub,
                req.worksets,
                c.id,
                req.live_monitors,
            ) matches Some(cell)
            &&& exists|i: int|
                0 <= i < workset_service::all_windows(req.worksets).len()
                    && workset_service::handle_of(
                    decisions,
                    (#[trigger] workset_service::all_windows(req.worksets)[i]).id,
                ) == Some(h)
            &&& enumerate::live_at(req.live_windows, h) matches Some(l) && l.rect_px.meets(cell)
            &&& !journaled::is_among(outgoing, h)
            &&& !journaled::is_among(incoming, h)
        },
{
    let both = switch_coordinator::handle_set(outgoing).union(
        switch_coordinator::handle_set(incoming),
    );
    lemma_handle_set(outgoing, h);
    lemma_handle_set(incoming, h);
    let out = switch_coordinator::evictees_of(req, decisions, current, both);
    if let Some(cell) = switch_coordinator::outgoing_cell(req, current) {
        let windows = workset_service::all_windows(req.worksets);
        let managed = switch_coordinator::managed_live(windows, decisions, req.live_windows);
        let holders = switch_coordinator::managed_holders(windows, decisions, req.live_windows);
        let s = sub_screens::lemma_stale_listed(cell, both, managed);
        let stale = switch_coordinator::stale_list(cell, both, managed);
        assert(sub_screens::lists_stale(stale, cell, both, managed));
        switch_coordinator::lemma_holder_exists(windows, decisions, req.live_windows);
        assert forall|x: isize| #[trigger] stale.contains(x) implies journaled::is_among(
            holders,
            x,
        ) by {
            assert(sub_screens::is_stale(cell, both, managed, x));
            let i = choose|i: int|
                0 <= i < managed.len() && (#[trigger] managed[i]).0 == x && !both.contains(x)
                    && managed[i].1.meets(cell);
            assert(holders[i].hwnd == x);
        }
        assert(journaled::is_among(out, h) <==> stale.contains(h)) by {
            if journaled::is_among(out, h) {
                let k = choose|k: int| 0 <= k < out.len() && (#[trigger] out[k]).hwnd == h;
                assert(stale.contains(stale[k]));
                lemma_holder_has_handle(holders, stale[k]);
            }
            if stale.contains(h) {
                let k = choose|k: int| 0 <= k < stale.len() && stale[k] == h;
                lemma_holder_has_handle(holders, h);
                assert(out[k].hwnd == h);
            }
        }
        assert(stale.contains(h) <==> sub_screens::is_stale(cell, both, managed, h));
        if sub_screens::is_stale(cell, both, managed, h) {
            let i = choose|i: int|
                0 <= i < managed.len() && (#[trigger] managed[i]).0 == h && !both.contains(h)
                    && managed[i].1.meets(cell);
            lemma_managed_live(windows, decisions, req.live_windows, h, managed[i].1);
            assert(managed.contains((h, managed[i].1)));
        }
        if let Some(l) = enumerate::live_at(req.live_windows, h) {
            lemma_managed_live(windows, decisions, req.live_windows, h, l.rect_px);
            if managed.contains((h, l.rect_px)) && l.rect_px.meets(cell) && !both.contains(h) {
                let i = choose|i: int| 0 <= i < managed.len() && managed[i] == (h, l.rect_px);
                assert(sub_screens::is_stale(cell, both, managed, h));
            }
        }
    }
}

} // verus!
