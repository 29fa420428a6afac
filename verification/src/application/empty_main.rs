//! Emptying the main screen: where each window on it goes, and how it is put back.

use vstd::prelude::*;
use std::collections::{HashMap, HashSet};

use crate::application::layout_service::{UndoEntry, UndoSnapshot};
use crate::application::main_placement;
use crate::application::monitor_resolution;
use crate::application::parking_allocator;
use crate::application::parking_allocator::{
    AllocationInput, AllocationView, AssignmentView, ParkAssignment, SlotView,
};
use crate::application::parking_cells;
use crate::application::parking_placement;
use crate::application::parking_placement::ParkPlan;
use crate::application::sub_screens;
use crate::application::switch_coordinator;
use crate::application::window_ops::{Recorder, WindowCall, WindowOps};
use crate::application::workset_service;
use crate::domain::config::AppConfig;
use crate::domain::monitor::MonitorInfo;
use crate::domain::placement::{PixelRect, SavedShowState};
use crate::domain::workset::{ManagedWindow, ParkingPolicy, Workset};
use crate::ids::Uuid;
use crate::text;
use crate::windowing::enumerate::TopLevelWindow;
use crate::windowing::matcher::{MatchDecision, MatchView, WindowMatching};

verus! {

broadcast use vstd::std_specs::hash::group_hash_axioms;

// ---------------------------------------------------------------------------
// The windows of a set
// ---------------------------------------------------------------------------

/// The windows that were found and have a place on the main screen, each with that place.
pub open spec fn homed(
    windows: Seq<ManagedWindow>,
    decisions: Map<Uuid, MatchView>,
    live: Seq<MonitorInfo>,
    main_ids: Seq<String>,
) -> Seq<(isize, PixelRect)>
    decreases windows.len(),
{
    if windows.len() == 0 {
        Seq::empty()
    } else {
        let before = homed(windows.drop_last(), decisions, live, main_ids);
        let w = windows.last();
        match (
            workset_service::handle_of(decisions, w.id),
            main_placement::restore_of(w.main_placement, live, main_ids),
        ) {
            (Some(hwnd), Some(outcome)) => before.push((hwnd, outcome.rect)),
            _ => before,
        }
    }
}

fn find_homed(
    workset: &Workset,
    decisions: &HashMap<Uuid, MatchDecision>,
    live: &[MonitorInfo],
    main_ids: &[String],
) -> (r: Vec<(isize, PixelRect)>)
    ensures
        r@ == homed(
            workset.windows@,
            workset_service::decisions_view(decisions@),
            live@,
            main_ids@,
        ),
{
    let ghost dv = workset_service::decisions_view(decisions@);
    let ghost ws = workset.windows@;
    let mut out: Vec<(isize, PixelRect)> = Vec::new();
    let mut i: usize = 0;
    while i < workset.windows.len()
        invariant
            i <= ws.len(),
            ws == workset.windows@,
            dv == workset_service::decisions_view(decisions@),
            out@ == homed(ws.take(i as int), dv, live@, main_ids@),
        decreases ws.len() - i,
    {
        proof {
            assert(ws.take(i + 1).drop_last() =~= ws.take(i as int));
            assert(ws.take(i + 1).last() == ws[i as int]);
        }
        let w = &workset.windows[i];
        if let Some(hwnd) = workset_service::settled_handle(decisions, w.id) {
            if let Some(outcome) = main_placement::resolve_main_restore(
                &w.main_placement,
                live,
                main_ids,
            ) {
                out.push((hwnd, outcome.rect));
            }
        }
        i += 1;
    }
    assert(ws.take(ws.len() as int) =~= ws);
    out
}

/// The set has its named area to itself and is meant to fill it.
pub open spec fn fills_alone(config: AppConfig, w: Workset, sub_screen_id: Uuid) -> bool {
    &&& sub_screens::sharers(config.worksets@, sub_screen_id).len() <= 1
    &&& (w.fullscreen_when_parked || (switch_coordinator::area_with_id(
        config.sub_screens@,
        sub_screen_id,
    ) matches Some(s) && s.fullscreen))
}

/// What a set gets of its named area.
pub open spec fn area_cell(
    config: AppConfig,
    w: Workset,
    sub_screen_id: Uuid,
    live: Seq<MonitorInfo>,
) -> Option<PixelRect> {
    match switch_coordinator::area_with_id(config.sub_screens@, sub_screen_id) {
        Some(sub) => sub_screens::slot_rect_of(sub, config.worksets@, w.id, live),
        None => None,
    }
}

/// The cell of a set in its named area, and whether it fills the area.
fn find_area_cell(
    config: &AppConfig,
    workset: &Workset,
    sub_screen_id: Uuid,
    live: &[MonitorInfo],
) -> (r: Option<(PixelRect, bool)>)
    requires
        parking_allocator::monitors_fit(live@),
    ensures
        match r {
            Some((cell, fill)) => {
                &&& area_cell(*config, *workset, sub_screen_id, live@) == Some(cell)
                &&& fill == fills_alone(*config, *workset, sub_screen_id)
                &&& cell.fits()
            },
            None => area_cell(*config, *workset, sub_screen_id, live@) is None,
        },
{
    let sub = switch_coordinator::find_area(config.sub_screens.as_slice(), sub_screen_id)?;
    let cell = sub_screens::sub_screen_slot_rect(
        sub,
        config.worksets.as_slice(),
        workset.id,
        live,
    )?;
    let sole = sub_screens::sub_screen_sharer_count(config.worksets.as_slice(), sub_screen_id) <= 1;
    Some((cell, sole && (workset.fullscreen_when_parked || sub.fullscreen)))
}

// ---------------------------------------------------------------------------
// Where every window goes
// ---------------------------------------------------------------------------

/// How far the plan has come.
pub struct Emptying {
    /// Where windows go; one without a place here is minimized.
    pub rects: Map<isize, PixelRect>,
    /// Those that are sent the full-screen keys as well.
    pub fullscreen: Set<isize>,
    /// Windows without a named area, with their places on the main screen.
    pub general: Seq<(isize, PixelRect)>,
    /// The named areas that took a window.
    pub occupied: Set<Uuid>,
}

pub open spec fn nothing_planned() -> Emptying {
    Emptying {
        rects: Map::empty(),
        fullscreen: Set::empty(),
        general: Seq::empty(),
        occupied: Set::empty(),
    }
}

/// The first `n` windows of a set are put into the cells of its named area, each into its own,
/// as far as there are cells and they are large enough.
pub open spec fn seated(
    before: Emptying,
    windows: Seq<(isize, PixelRect)>,
    cells: Seq<PixelRect>,
    sub_screen_id: Uuid,
    fill: bool,
    n: nat,
) -> Emptying
    decreases n,
{
    if n == 0 {
        before
    } else {
        let b = seated(before, windows, cells, sub_screen_id, fill, (n - 1) as nat);
        let (hwnd, home) = windows[n - 1];
        if n - 1 < cells.len() {
            match switch_coordinator::fitted(home, cells[n - 1]) {
                Some(rect) => Emptying {
                    rects: b.rects.insert(hwnd, rect),
                    fullscreen: if fill {
                        b.fullscreen.insert(hwnd)
                    } else {
                        b.fullscreen
                    },
                    general: b.general,
                    occupied: b.occupied.insert(sub_screen_id),
                },
                None => b,
            }
        } else {
            b
        }
    }
}

/// What one more set adds to the plan.
pub open spec fn with_set(
    config: AppConfig,
    live: Seq<MonitorInfo>,
    decisions: Map<Uuid, MatchView>,
    before: Emptying,
    w: Workset,
) -> Emptying {
    let ws = homed(w.windows@, decisions, live, config.main_monitor_ids@);
    if ws.len() == 0 {
        before
    } else {
        match w.parking_policy {
            ParkingPolicy::SubScreen { sub_screen_id } => match area_cell(
                config,
                w,
                sub_screen_id,
                live,
            ) {
                Some(cell) => seated(
                    before,
                    ws,
                    parking_cells::cells_for(cell, ws.len()),
                    sub_screen_id,
                    fills_alone(config, w, sub_screen_id),
                    ws.len(),
                ),
                None => before,
            },
            _ => Emptying { general: before.general + ws, ..before },
        }
    }
}

/// The plan after the first `n` sets.
pub open spec fn sets_planned(
    config: AppConfig,
    live: Seq<MonitorInfo>,
    decisions: Map<Uuid, MatchView>,
    n: nat,
) -> Emptying
    decreases n,
{
    if n == 0 {
        nothing_planned()
    } else {
        with_set(
            config,
            live,
            decisions,
            sets_planned(config, live, decisions, (n - 1) as nat),
            config.worksets@[n - 1],
        )
    }
}

/// The monitor belongs to a named area that took a window.
pub open spec fn is_taken(config: AppConfig, occupied: Set<Uuid>, name: Seq<char>) -> bool {
    exists|i: int|
        0 <= i < config.sub_screens@.len() && occupied.contains(
            (#[trigger] config.sub_screens@[i]).id,
        ) && monitor_resolution::names(config.sub_screens@[i].monitor_ids@, name)
}

/// A monitor that windows without a named area may go to: not a main one, not one that is left
/// alone, and none of a named area that took a window.
pub open spec fn is_general(config: AppConfig, occupied: Set<Uuid>, m: MonitorInfo) -> bool {
    &&& !monitor_resolution::names(config.main_monitor_ids@, m.device_name@)
    &&& !is_taken(config, occupied, m.device_name@)
    &&& !parking_allocator::is_excluded(config.monitors@, m.device_name@)
}

/// The work areas of the first `n` such monitors.
pub open spec fn general_screens(
    config: AppConfig,
    live: Seq<MonitorInfo>,
    occupied: Set<Uuid>,
    n: nat,
) -> Seq<PixelRect>
    decreases n,
{
    if n == 0 {
        Seq::empty()
    } else {
        let before = general_screens(config, live, occupied, (n - 1) as nat);
        if is_general(config, occupied, live[n - 1]) {
            before.push(live[n - 1].work_area_px)
        } else {
            before
        }
    }
}

pub open spec fn handles_of(windows: Seq<(isize, PixelRect)>) -> Seq<isize> {
    Seq::new(windows.len(), |i: int| windows[i].0)
}

/// The place of a window on the main screen; where it is listed more than once, the last counts.
pub open spec fn home_of(windows: Seq<(isize, PixelRect)>, hwnd: isize) -> Option<PixelRect>
    decreases windows.len(),
{
    if windows.len() == 0 {
        None
    } else if windows.last().0 == hwnd {
        Some(windows.last().1)
    } else {
        home_of(windows.drop_last(), hwnd)
    }
}

/// The first `n` windows are put into the cells dealt to them, where these are large enough.
pub open spec fn spread_out(
    rects: Map<isize, PixelRect>,
    general: Seq<(isize, PixelRect)>,
    dealt: Seq<(isize, PixelRect)>,
    n: nat,
) -> Map<isize, PixelRect>
    decreases n,
{
    if n == 0 {
        rects
    } else {
        let before = spread_out(rects, general, dealt, (n - 1) as nat);
        let (hwnd, cell) = dealt[n - 1];
        match home_of(general, hwnd) {
            Some(home) => match switch_coordinator::fitted(home, cell) {
                Some(rect) => before.insert(hwnd, rect),
                None => before,
            },
            None => before,
        }
    }
}

/// The cells dealt to the windows without a named area.
pub open spec fn dealt_out(
    config: AppConfig,
    live: Seq<MonitorInfo>,
    planned: Emptying,
) -> Seq<(isize, PixelRect)> {
    let screens = general_screens(config, live, planned.occupied, live.len());
    parking_cells::placements_upto(
        screens,
        parking_cells::spread(screens, handles_of(planned.general)).0,
        screens.len(),
    )
}

/// Where all windows go, and which of them fill their area.
pub open spec fn destinations(
    config: AppConfig,
    live: Seq<MonitorInfo>,
    decisions: Map<Uuid, MatchView>,
) -> (Map<isize, PixelRect>, Set<isize>) {
    let planned = sets_planned(config, live, decisions, config.worksets@.len());
    let dealt = dealt_out(config, live, planned);
    (spread_out(planned.rects, planned.general, dealt, dealt.len()), planned.fullscreen)
}

/// All registered windows among the live ones, no set before another.
pub open spec fn found_windows<M: WindowMatching>(
    matching: M,
    config: AppConfig,
    live_windows: Seq<TopLevelWindow>,
    bindings: Map<Uuid, isize>,
) -> Map<Uuid, MatchView> {
    workset_service::all_decisions(matching, config.worksets@, live_windows, bindings, None)
}

fn seat_windows(
    windows: &Vec<(isize, PixelRect)>,
    cell: PixelRect,
    sub_screen_id: Uuid,
    fill: bool,
    rects: &mut HashMap<isize, PixelRect>,
    fullscreen: &mut HashSet<isize>,
    occupied: &mut HashSet<Uuid>,
    Ghost(general): Ghost<Seq<(isize, PixelRect)>>,
)
    requires
        cell.fits(),
    ensures
        ({
            let before = Emptying {
                rects: old(rects)@,
                fullscreen: old(fullscreen)@,
                general,
                occupied: old(occupied)@,
            };
            let after = seated(
                before,
                windows@,
                parking_cells::cells_for(cell, windows@.len()),
                sub_screen_id,
                fill,
                windows@.len(),
            );
            &&& final(rects)@ == after.rects
            &&& final(fullscreen)@ == after.fullscreen
            &&& final(occupied)@ == after.occupied
            &&& after.general == general
        }),
{
    let ghost before = Emptying {
        rects: rects@,
        fullscreen: fullscreen@,
        general,
        occupied: occupied@,
    };
    let cells = parking_cells::subdivide_for_count(cell, windows.len());
    let mut i: usize = 0;
    while i < windows.len()
        invariant
            i <= windows@.len(),
            ({
                let now = seated(before, windows@, cells@, sub_screen_id, fill, i as nat);
                &&& rects@ == now.rects
                &&& fullscreen@ == now.fullscreen
                &&& occupied@ == now.occupied
                &&& now.general == general
            }),
        decreases windows@.len() - i,
    {
        let (hwnd, home) = windows[i];
        if i < cells.len() {
            if let Some(rect) = switch_coordinator::fit_into(home, cells[i]) {
                rects.insert(hwnd, rect);
                occupied.insert(sub_screen_id);
                if fill {
                    fullscreen.insert(hwnd);
                }
            }
        }
        i += 1;
    }
}

fn area_is_taken(config: &AppConfig, occupied: &HashSet<Uuid>, name: &str) -> (r: bool)
    ensures
        r == is_taken(*config, occupied@, name@),
{
    let mut i: usize = 0;
    while i < config.sub_screens.len()
        invariant
            i <= config.sub_screens@.len(),
            forall|j: int|
                0 <= j < i ==> !(occupied@.contains((#[trigger] config.sub_screens@[j]).id)
                    && monitor_resolution::names(config.sub_screens@[j].monitor_ids@, name@)),
        decreases config.sub_screens@.len() - i,
    {
        let sub = &config.sub_screens[i];
        if occupied.contains(&sub.id) && monitor_resolution::is_named(
            sub.monitor_ids.as_slice(),
            name,
        ) {
            return true;
        }
        i += 1;
    }
    false
}

fn find_general_screens(
    config: &AppConfig,
    live: &[MonitorInfo],
    occupied: &HashSet<Uuid>,
) -> (r: Vec<PixelRect>)
    requires
        parking_allocator::monitors_fit(live@),
    ensures
        r@ == general_screens(*config, live@, occupied@, live@.len()),
        parking_cells::all_fit(r@),
{
    let mut screens: Vec<PixelRect> = Vec::new();
    let mut i: usize = 0;
    while i < live.len()
        invariant
            i <= live@.len(),
            parking_allocator::monitors_fit(live@),
            screens@ == general_screens(*config, live@, occupied@, i as nat),
            parking_cells::all_fit(screens@),
        decreases live@.len() - i,
    {
        let m = &live[i];
        let name = m.device_name.as_str();
        assert(live@[i as int].work_area_px.fits());
        if !monitor_resolution::is_named(config.main_monitor_ids.as_slice(), name)
            && !area_is_taken(config, occupied, name) && !parking_allocator::monitor_is_excluded(
            config.monitors.as_slice(),
            name,
        ) {
            screens.push(m.work_area_px);
        }
        i += 1;
    }
    screens
}

fn find_home(windows: &Vec<(isize, PixelRect)>, hwnd: isize) -> (r: Option<PixelRect>)
    ensures
        r == home_of(windows@, hwnd),
{
    let mut i: usize = windows.len();
    assert(windows@.take(i as int) =~= windows@);
    while i > 0
        invariant
            i <= windows@.len(),
            home_of(windows@, hwnd) == home_of(windows@.take(i as int), hwnd),
        decreases i,
    {
        proof {
            assert(windows@.take(i as int).last() == windows@[i - 1]);
            assert(windows@.take(i as int).drop_last() =~= windows@.take(i - 1));
        }
        i -= 1;
        if windows[i].0 == hwnd {
            return Some(windows[i].1);
        }
    }
    None
}

/// Decides where every registered window goes when the main screen is emptied, and which of them
/// are sent the full-screen keys. Windows of a set with a named area share the cell of the set
/// there; all others are spread over the screens that are left. A window that gets no place is
/// absent.
pub fn compute_empty_main_destinations<M: WindowMatching>(
    matching: &M,
    config: &AppConfig,
    bindings: &HashMap<Uuid, isize>,
    live_monitors: &[MonitorInfo],
    live_windows: &[TopLevelWindow],
) -> (r: (HashMap<isize, PixelRect>, HashSet<isize>))
    requires
        parking_allocator::monitors_fit(live_monitors@),
    ensures
        (r.0@, r.1@) == destinations(
            *config,
            live_monitors@,
            found_windows(*matching, *config, live_windows@, bindings@),
        ),
{
    let decisions = workset_service::resolve_all_matches_with_bindings(
        matching,
        config.worksets.as_slice(),
        live_windows,
        bindings,
        None,
    );
    let ghost dv = workset_service::decisions_view(decisions@);
    let ghost live = live_monitors@;
    let mut rects: HashMap<isize, PixelRect> = HashMap::new();
    let mut fullscreen: HashSet<isize> = HashSet::new();
    let mut general: Vec<(isize, PixelRect)> = Vec::new();
    let mut occupied: HashSet<Uuid> = HashSet::new();
    assert(rects@ =~= Map::<isize, PixelRect>::empty());
    assert(fullscreen@ =~= Set::<isize>::empty());
    assert(general@ =~= Seq::<(isize, PixelRect)>::empty());
    assert(occupied@ =~= Set::<Uuid>::empty());
    let mut i: usize = 0;
    while i < config.worksets.len()
        invariant
            i <= config.worksets@.len(),
            live == live_monitors@,
            parking_allocator::monitors_fit(live_monitors@),
            dv == workset_service::decisions_view(decisions@),
            (Emptying {
                rects: rects@,
                fullscreen: fullscreen@,
                general: general@,
                occupied: occupied@,
            }) == sets_planned(*config, live, dv, i as nat),
        decreases config.worksets@.len() - i,
    {
        let workset = &config.worksets[i];
        let ghost before = Emptying {
            rects: rects@,
            fullscreen: fullscreen@,
            general: general@,
            occupied: occupied@,
        };
        let mut ws = find_homed(
            workset,
            &decisions,
            live_monitors,
            config.main_monitor_ids.as_slice(),
        );
        let ghost homes = ws@;
        if ws.len() > 0 {
            match workset.parking_policy {
                ParkingPolicy::SubScreen { sub_screen_id } => {
                    if let Some((cell, fill)) = find_area_cell(
                        config,
                        workset,
                        sub_screen_id,
                        live_monitors,
                    ) {
                        seat_windows(
                            &ws,
                            cell,
                            sub_screen_id,
                            fill,
                            &mut rects,
                            &mut fullscreen,
                            &mut occupied,
                            Ghost(general@),
                        );
                    }
                },
                _ => {
                    general.append(&mut ws);
                    assert(general@ =~= before.general + homes);
                },
            }
        }
        i += 1;
    }
    let ghost planned = sets_planned(*config, live, dv, config.worksets@.len());
    let screens = find_general_screens(config, live_monitors, &occupied);
    let mut hwnds: Vec<isize> = Vec::new();
    let mut k: usize = 0;
    while k < general.len()
        invariant
            k <= general@.len(),
            hwnds@ == handles_of(general@).take(k as int),
        decreases general@.len() - k,
    {
        hwnds.push(general[k].0);
        assert(hwnds@ =~= handles_of(general@).take(k + 1));
        k += 1;
    }
    assert(hwnds@ =~= handles_of(general@));
    let (dealt, _over) = parking_cells::distribute_parking(screens.as_slice(), hwnds.as_slice());
    assert(dealt@ == dealt_out(*config, live, planned));
    let mut p: usize = 0;
    while p < dealt.len()
        invariant
            p <= dealt@.len(),
            rects@ == spread_out(planned.rects, general@, dealt@, p as nat),
        decreases dealt@.len() - p,
    {
        let (hwnd, cell) = dealt[p];
        if let Some(home) = find_home(&general, hwnd) {
            if let Some(rect) = switch_coordinator::fit_into(home, cell) {
                rects.insert(hwnd, rect);
            }
        }
        p += 1;
    }
    (rects, fullscreen)
}

proof fn lemma_seated_fullscreen(
    before: Emptying,
    windows: Seq<(isize, PixelRect)>,
    cells: Seq<PixelRect>,
    sub_screen_id: Uuid,
    fill: bool,
    n: nat,
)
    requires
        before.fullscreen.subset_of(before.rects.dom()),
    ensures
        ({
            let after = seated(before, windows, cells, sub_screen_id, fill, n);
            after.fullscreen.subset_of(after.rects.dom())
        }),
    decreases n,
{
    if n > 0 {
        lemma_seated_fullscreen(before, windows, cells, sub_screen_id, fill, (n - 1) as nat);
    }
}

proof fn lemma_planned_fullscreen(
    config: AppConfig,
    live: Seq<MonitorInfo>,
    decisions: Map<Uuid, MatchView>,
    n: nat,
)
    ensures
        ({
            let planned = sets_planned(config, live, decisions, n);
            planned.fullscreen.subset_of(planned.rects.dom())
        }),
    decreases n,
{
    if n > 0 {
        lemma_planned_fullscreen(config, live, decisions, (n - 1) as nat);
        let before = sets_planned(config, live, decisions, (n - 1) as nat);
        let w = config.worksets@[n - 1];
        let ws = homed(w.windows@, decisions, live, config.main_monitor_ids@);
        if let ParkingPolicy::SubScreen { sub_screen_id } = w.parking_policy {
            if let Some(cell) = area_cell(config, w, sub_screen_id, live) {
                lemma_seated_fullscreen(
                    before,
                    ws,
                    parking_cells::cells_for(cell, ws.len()),
                    sub_screen_id,
                    fills_alone(config, w, sub_screen_id),
                    ws.len(),
                );
            }
        }
    }
}

proof fn lemma_spread_out_grows(
    rects: Map<isize, PixelRect>,
    general: Seq<(isize, PixelRect)>,
    dealt: Seq<(isize, PixelRect)>,
    n: nat,
)
    requires
        n <= dealt.len(),
    ensures
        rects.dom().subset_of(spread_out(rects, general, dealt, n).dom()),
        forall|hwnd: isize| #[trigger]
            spread_out(rects, general, dealt, n).contains_key(hwnd) ==> {
                ||| rects.contains_key(hwnd) && rects[hwnd] == spread_out(
                    rects,
                    general,
                    dealt,
                    n,
                )[hwnd]
                ||| exists|k: int, home: PixelRect|
                    0 <= k < n && (#[trigger] dealt[k]).0 == hwnd && (
                    #[trigger] switch_coordinator::fitted(home, dealt[k].1)) == Some(
                        spread_out(rects, general, dealt, n)[hwnd],
                    )
            },
    decreases n,
{
    if n > 0 {
        lemma_spread_out_grows(rects, general, dealt, (n - 1) as nat);
        let before = spread_out(rects, general, dealt, (n - 1) as nat);
        let after = spread_out(rects, general, dealt, n);
        assert forall|hwnd: isize| #[trigger] after.contains_key(hwnd) implies {
            ||| rects.contains_key(hwnd) && rects[hwnd] == after[hwnd]
            ||| exists|k: int, home: PixelRect|
                0 <= k < n && (#[trigger] dealt[k]).0 == hwnd && (
                #[trigger] switch_coordinator::fitted(home, dealt[k].1)) == Some(after[hwnd])
        } by {
            if before.contains_key(hwnd) && before[hwnd] == after[hwnd] {
                if !(rects.contains_key(hwnd) && rects[hwnd] == after[hwnd]) {
                    let (k, home) = choose|k: int, home: PixelRect|
                        0 <= k < n - 1 && (#[trigger] dealt[k]).0 == hwnd && (
                        #[trigger] switch_coordinator::fitted(home, dealt[k].1)) == Some(
                            before[hwnd],
                        );
                    assert(dealt[k].0 == hwnd && switch_coordinator::fitted(home, dealt[k].1)
                        == Some(after[hwnd]));
                }
            } else {
                let home = home_of(general, dealt[n - 1].0)->0;
                assert(dealt[n - 1].0 == hwnd && switch_coordinator::fitted(home, dealt[n - 1].1)
                    == Some(after[hwnd]));
            }
        }
    }
}

/// The full-screen keys go only to windows that are given a place.
pub proof fn law_fullscreen_windows_have_a_place(
    config: AppConfig,
    live: Seq<MonitorInfo>,
    decisions: Map<Uuid, MatchView>,
)
    ensures
        destinations(config, live, decisions).1.subset_of(
            destinations(config, live, decisions).0.dom(),
        ),
{
    lemma_planned_fullscreen(config, live, decisions, config.worksets@.len());
    let planned = sets_planned(config, live, decisions, config.worksets@.len());
    let dealt = dealt_out(config, live, planned);
    lemma_spread_out_grows(planned.rects, planned.general, dealt, dealt.len());
}

/// The rectangle is the work area of one of the first `n` monitors that windows without a named
/// area may go to.
pub open spec fn is_general_area(
    config: AppConfig,
    live: Seq<MonitorInfo>,
    occupied: Set<Uuid>,
    n: nat,
    rect: PixelRect,
) -> bool {
    exists|m: int|
        0 <= m < n && is_general(config, occupied, #[trigger] live[m]) && live[m].work_area_px
            == rect
}

proof fn lemma_general_screens(
    config: AppConfig,
    live: Seq<MonitorInfo>,
    occupied: Set<Uuid>,
    n: nat,
)
    requires
        n <= live.len(),
        parking_allocator::monitors_fit(live),
    ensures
        parking_cells::all_fit(general_screens(config, live, occupied, n)),
        forall|j: int|
            0 <= j < general_screens(config, live, occupied, n).len() ==> is_general_area(
                config,
                live,
                occupied,
                n,
                #[trigger] general_screens(config, live, occupied, n)[j],
            ),
    decreases n,
{
    if n > 0 {
        lemma_general_screens(config, live, occupied, (n - 1) as nat);
        let before = general_screens(config, live, occupied, (n - 1) as nat);
        let after = general_screens(config, live, occupied, n);
        assert(live[n - 1].work_area_px.fits());
        assert forall|j: int| 0 <= j < after.len() implies is_general_area(
            config,
            live,
            occupied,
            n,
            #[trigger] after[j],
        ) by {
            if j < before.len() {
                assert(after[j] == before[j]);
                let m = choose|m: int|
                    0 <= m < n - 1 && is_general(config, occupied, #[trigger] live[m])
                        && live[m].work_area_px == before[j];
                assert(is_general(config, occupied, live[m]));
            } else {
                assert(is_general(config, occupied, live[n - 1]));
            }
        }
    }
}

/// The monitors are laid out side by side: no pixel belongs to two of them.
pub open spec fn side_by_side(live: Seq<MonitorInfo>) -> bool {
    forall|i: int, j: int|
        0 <= i < j < live.len() ==> parking_cells::apart(
            (#[trigger] live[i]).work_area_px,
            (#[trigger] live[j]).work_area_px,
        )
}

proof fn lemma_general_screens_apart(
    config: AppConfig,
    live: Seq<MonitorInfo>,
    occupied: Set<Uuid>,
    n: nat,
)
    requires
        n <= live.len(),
        parking_allocator::monitors_fit(live),
        side_by_side(live),
    ensures
        parking_cells::all_apart(general_screens(config, live, occupied, n)),
    decreases n,
{
    if n > 0 {
        lemma_general_screens_apart(config, live, occupied, (n - 1) as nat);
        lemma_general_screens(config, live, occupied, (n - 1) as nat);
        let before = general_screens(config, live, occupied, (n - 1) as nat);
        let after = general_screens(config, live, occupied, n);
        assert forall|i: int, j: int| 0 <= i < j < after.len() implies parking_cells::apart(
            #[trigger] after[i],
            #[trigger] after[j],
        ) by {
            assert(after[i] == before[i]);
            if j < before.len() {
                assert(after[j] == before[j]);
            } else {
                let m = choose|m: int|
                    0 <= m < n - 1 && is_general(config, occupied, #[trigger] live[m])
                        && live[m].work_area_px == before[i];
                assert(parking_cells::apart(live[m].work_area_px, live[n - 1].work_area_px));
            }
        }
    }
}

/// The cells dealt to windows without a named area never overlap, and no pixel of them lies
/// anywhere but on a monitor that such windows may go to: never on a main one, one that is left
/// alone, or one of a named area that took a window.
pub proof fn law_general_windows_keep_out(
    config: AppConfig,
    live: Seq<MonitorInfo>,
    decisions: Map<Uuid, MatchView>,
)
    requires
        parking_allocator::monitors_fit(live),
        side_by_side(live),
    ensures
        ({
            let planned = sets_planned(config, live, decisions, config.worksets@.len());
            let dealt = dealt_out(config, live, planned);
            &&& forall|k: int, l: int|
                0 <= k < l < dealt.len() ==> parking_cells::apart(
                    (#[trigger] dealt[k]).1,
                    (#[trigger] dealt[l]).1,
                )
            &&& forall|k: int, px: int, py: int|
                0 <= k < dealt.len() && #[trigger] dealt[k].1.covers(px, py) ==> exists|m: int|
                    0 <= m < live.len() && is_general(
                        config,
                        planned.occupied,
                        #[trigger] live[m],
                    ) && live[m].work_area_px.covers(px, py)
        }),
{
    let planned = sets_planned(config, live, decisions, config.worksets@.len());
    let screens = general_screens(config, live, planned.occupied, live.len());
    let dealt = dealt_out(config, live, planned);
    lemma_general_screens(config, live, planned.occupied, live.len());
    lemma_general_screens_apart(config, live, planned.occupied, live.len());
    parking_cells::law_spread_windows_never_overlap(screens, handles_of(planned.general));
    assert forall|k: int, px: int, py: int|
        0 <= k < dealt.len() && #[trigger] dealt[k].1.covers(px, py) implies exists|m: int|
        0 <= m < live.len() && is_general(config, planned.occupied, #[trigger] live[m])
            && live[m].work_area_px.covers(px, py) by {
        assert(parking_cells::on_screens(dealt[k].1, screens, screens.len() as int));
        let j = choose|j: int| 0 <= j < screens.len() && #[trigger] screens[j].covers(px, py);
        let m = choose|m: int|
            0 <= m < live.len() && is_general(config, planned.occupied, #[trigger] live[m])
                && live[m].work_area_px == screens[j];
        assert(is_general(config, planned.occupied, live[m]));
    }
}

// ---------------------------------------------------------------------------
// Where the windows go that the user has confirmed
// ---------------------------------------------------------------------------

/// One of the windows was found.
pub open spec fn some_found(windows: Seq<ManagedWindow>, decisions: Map<Uuid, MatchView>) -> bool {
    exists|i: int|
        0 <= i < windows.len() && workset_service::handle_of(
            decisions,
            (#[trigger] windows[i]).id,
        ) is Some
}

/// Those of the first `n` sets of which a window was found.
pub open spec fn sets_found(
    worksets: Seq<Workset>,
    decisions: Map<Uuid, MatchView>,
    n: nat,
) -> Set<Uuid>
    decreases n,
{
    if n == 0 {
        Set::empty()
    } else {
        let before = sets_found(worksets, decisions, (n - 1) as nat);
        if some_found(worksets[n - 1].windows@, decisions) {
            before.insert(worksets[n - 1].id)
        } else {
            before
        }
    }
}

/// What the cells are dealt out by: every set makes room, the current one too.
pub open spec fn dealing_to_all(
    config: AppConfig,
    live: Seq<MonitorInfo>,
    with_windows: Set<Uuid>,
    slots: Map<Uuid, SlotView>,
) -> AllocationView {
    AllocationView {
        worksets: config.worksets@,
        current: None,
        fixed_slots: config.fixed_slots@,
        main_monitor_ids: config.main_monitor_ids@,
        live_monitors: live,
        saved_monitors: config.monitors@,
        sub_screen_monitor_ids: switch_coordinator::area_monitors(config.sub_screens@),
        previous: slots,
        with_windows,
    }
}

/// Where a set goes, and whether its windows are sent the full-screen keys.
pub open spec fn set_destination(
    config: AppConfig,
    live: Seq<MonitorInfo>,
    places: Map<Uuid, AssignmentView>,
    w: Workset,
) -> Option<(PixelRect, bool)> {
    match w.parking_policy {
        ParkingPolicy::SubScreen { sub_screen_id } => match area_cell(
            config,
            w,
            sub_screen_id,
            live,
        ) {
            Some(cell) => Some((cell, fills_alone(config, w, sub_screen_id))),
            None => None,
        },
        _ => if places.contains_key(w.id) {
            match places[w.id] {
                AssignmentView::Auto(_, rect) => Some((rect, w.fullscreen_when_parked)),
                AssignmentView::Fixed(_, rect) => Some((rect, w.fullscreen_when_parked)),
                AssignmentView::Minimized => None,
            }
        } else {
            None
        },
    }
}

pub open spec fn homes_of(windows: Seq<(isize, PixelRect)>) -> Seq<PixelRect> {
    Seq::new(windows.len(), |i: int| windows[i].1)
}

/// The first `n` windows take the rectangles given.
pub open spec fn moved_in(
    before: (Map<isize, PixelRect>, Set<isize>),
    windows: Seq<(isize, PixelRect)>,
    targets: Seq<PixelRect>,
    fill: bool,
    n: nat,
) -> (Map<isize, PixelRect>, Set<isize>)
    decreases n,
{
    if n == 0 {
        before
    } else {
        let b = moved_in(before, windows, targets, fill, (n - 1) as nat);
        let hwnd = windows[n - 1].0;
        (
            b.0.insert(hwnd, targets[n - 1]),
            if fill {
                b.1.insert(hwnd)
            } else {
                b.1
            },
        )
    }
}

/// What one more set adds: its windows keep their arrangement, shrunk into the cell of the set,
/// all of them or none.
pub open spec fn with_arranged_set(
    config: AppConfig,
    live: Seq<MonitorInfo>,
    decisions: Map<Uuid, MatchView>,
    places: Map<Uuid, AssignmentView>,
    before: (Map<isize, PixelRect>, Set<isize>),
    w: Workset,
) -> (Map<isize, PixelRect>, Set<isize>) {
    let ws = homed(w.windows@, decisions, live, config.main_monitor_ids@);
    match set_destination(config, live, places, w) {
        Some((cell, fill)) => {
            let targets = parking_placement::shrunk(homes_of(ws), cell);
            if ws.len() == 0 || parking_placement::some_too_small(targets) {
                before
            } else {
                moved_in(before, ws, targets, fill, ws.len())
            }
        },
        None => before,
    }
}

/// The plan after the first `n` sets.
pub open spec fn sets_arranged(
    config: AppConfig,
    live: Seq<MonitorInfo>,
    decisions: Map<Uuid, MatchView>,
    places: Map<Uuid, AssignmentView>,
    n: nat,
) -> (Map<isize, PixelRect>, Set<isize>)
    decreases n,
{
    if n == 0 {
        (Map::empty(), Set::empty())
    } else {
        with_arranged_set(
            config,
            live,
            decisions,
            places,
            sets_arranged(config, live, decisions, places, (n - 1) as nat),
            config.worksets@[n - 1],
        )
    }
}

/// Where all windows go, set by set, and which of them fill their area.
pub open spec fn arranged_destinations(
    config: AppConfig,
    live: Seq<MonitorInfo>,
    decisions: Map<Uuid, MatchView>,
    slots: Map<Uuid, SlotView>,
) -> (Map<isize, PixelRect>, Set<isize>) {
    let with_windows = sets_found(config.worksets@, decisions, config.worksets@.len());
    let places = parking_allocator::allocation(
        dealing_to_all(config, live, with_windows, slots),
    ).0;
    sets_arranged(config, live, decisions, places, config.worksets@.len())
}

fn any_found(workset: &Workset, decisions: &HashMap<Uuid, MatchDecision>) -> (r: bool)
    ensures
        r == some_found(workset.windows@, workset_service::decisions_view(decisions@)),
{
    let mut i: usize = 0;
    while i < workset.windows.len()
        invariant
            i <= workset.windows@.len(),
            forall|j: int|
                0 <= j < i ==> workset_service::handle_of(
                    workset_service::decisions_view(decisions@),
                    (#[trigger] workset.windows@[j]).id,
                ) is None,
        decreases workset.windows@.len() - i,
    {
        if workset_service::settled_handle(decisions, workset.windows[i].id).is_some() {
            return true;
        }
        i += 1;
    }
    false
}

fn collect_sets_found(
    worksets: &[Workset],
    decisions: &HashMap<Uuid, MatchDecision>,
) -> (r: HashSet<Uuid>)
    ensures
        r@ == sets_found(
            worksets@,
            workset_service::decisions_view(decisions@),
            worksets@.len(),
        ),
{
    let mut out: HashSet<Uuid> = HashSet::new();
    let mut i: usize = 0;
    assert(out@ =~= Set::<Uuid>::empty());
    while i < worksets.len()
        invariant
            i <= worksets@.len(),
            out@ == sets_found(
                worksets@,
                workset_service::decisions_view(decisions@),
                i as nat,
            ),
        decreases worksets@.len() - i,
    {
        if any_found(&worksets[i], decisions) {
            out.insert(worksets[i].id);
        }
        i += 1;
    }
    out
}

fn find_set_destination(
    config: &AppConfig,
    live: &[MonitorInfo],
    places: &HashMap<Uuid, ParkAssignment>,
    workset: &Workset,
) -> (r: Option<(PixelRect, bool)>)
    requires
        parking_allocator::monitors_fit(live@),
    ensures
        r == set_destination(
            *config,
            live@,
            parking_allocator::places_view(places@),
            *workset,
        ),
{
    if let ParkingPolicy::SubScreen { sub_screen_id } = workset.parking_policy {
        return find_area_cell(config, workset, sub_screen_id, live);
    }
    let place = places.get(&workset.id);
    proof {
        if let Some(a) = place {
            assert(parking_allocator::places_view(places@)[workset.id] == a@);
        }
    }
    match place {
        Some(ParkAssignment::AutoSlot { slot: _, rect }) => Some(
            (*rect, workset.fullscreen_when_parked),
        ),
        Some(ParkAssignment::FixedSlot { slot: _, rect }) => Some(
            (*rect, workset.fullscreen_when_parked),
        ),
        _ => None,
    }
}

/// Decides where every registered window goes once the user has confirmed which ones leave the
/// main screen: each set into its named area or the cell dealt to it, with the arrangement of its
/// windows kept.
pub fn compute_confirmed_destinations<M: WindowMatching>(
    matching: &M,
    config: &AppConfig,
    bindings: &HashMap<Uuid, isize>,
    auto_slot_assignments: &Vec<(String, String)>,
    live_monitors: &[MonitorInfo],
    live_windows: &[TopLevelWindow],
) -> (r: (HashMap<isize, PixelRect>, HashSet<isize>))
    requires
        parking_allocator::monitors_fit(live_monitors@),
    ensures
        (r.0@, r.1@) == arranged_destinations(
            *config,
            live_monitors@,
            found_windows(*matching, *config, live_windows@, bindings@),
            switch_coordinator::decoded(auto_slot_assignments@),
        ),
{
    let decisions = workset_service::resolve_all_matches_with_bindings(
        matching,
        config.worksets.as_slice(),
        live_windows,
        bindings,
        None,
    );
    let ghost dv = workset_service::decisions_view(decisions@);
    let ghost live = live_monitors@;
    let previous = switch_coordinator::decode_assignments(auto_slot_assignments);
    let area_ids = switch_coordinator::collect_area_monitors(config.sub_screens.as_slice());
    let with_windows = collect_sets_found(config.worksets.as_slice(), &decisions);
    let input = AllocationInput {
        worksets: config.worksets.as_slice(),
        current_workset_id: None,
        fixed_slots: config.fixed_slots.as_slice(),
        main_monitor_ids: config.main_monitor_ids.as_slice(),
        live_monitors,
        saved_monitors: config.monitors.as_slice(),
        sub_screen_monitor_ids: area_ids.as_slice(),
        previous_assignments: &previous,
        worksets_with_windows: &with_windows,
    };
    assert(input@ == dealing_to_all(
        *config,
        live,
        with_windows@,
        switch_coordinator::decoded(auto_slot_assignments@),
    ));
    let dealt = parking_allocator::allocate_parking(&input);
    let ghost places = parking_allocator::places_view(dealt.assignments@);
    let mut rects: HashMap<isize, PixelRect> = HashMap::new();
    let mut fullscreen: HashSet<isize> = HashSet::new();
    assert(rects@ =~= Map::<isize, PixelRect>::empty());
    assert(fullscreen@ =~= Set::<isize>::empty());
    let mut i: usize = 0;
    while i < config.worksets.len()
        invariant
            i <= config.worksets@.len(),
            live == live_monitors@,
            parking_allocator::monitors_fit(live_monitors@),
            dv == workset_service::decisions_view(decisions@),
            places == parking_allocator::places_view(dealt.assignments@),
            (rects@, fullscreen@) == sets_arranged(*config, live, dv, places, i as nat),
        decreases config.worksets@.len() - i,
    {
        let workset = &config.worksets[i];
        if let Some((cell, fill)) = find_set_destination(
            config,
            live_monitors,
            &dealt.assignments,
            workset,
        ) {
            let ws = find_homed(
                workset,
                &decisions,
                live_monitors,
                config.main_monitor_ids.as_slice(),
            );
            if ws.len() > 0 {
                arrange(&ws, cell, fill, &mut rects, &mut fullscreen);
            }
        }
        i += 1;
    }
    (rects, fullscreen)
}

fn arrange(
    windows: &Vec<(isize, PixelRect)>,
    cell: PixelRect,
    fill: bool,
    rects: &mut HashMap<isize, PixelRect>,
    fullscreen: &mut HashSet<isize>,
)
    ensures
        ({
            let targets = parking_placement::shrunk(homes_of(windows@), cell);
            (final(rects)@, final(fullscreen)@) == if parking_placement::some_too_small(targets) {
                (old(rects)@, old(fullscreen)@)
            } else {
                moved_in(
                    (old(rects)@, old(fullscreen)@),
                    windows@,
                    targets,
                    fill,
                    windows@.len(),
                )
            }
        }),
{
    let ghost before = (rects@, fullscreen@);
    let mut homes: Vec<PixelRect> = Vec::new();
    let mut k: usize = 0;
    while k < windows.len()
        invariant
            k <= windows@.len(),
            homes@ == homes_of(windows@).take(k as int),
        decreases windows@.len() - k,
    {
        homes.push(windows[k].1);
        assert(homes@ =~= homes_of(windows@).take(k + 1));
        k += 1;
    }
    assert(homes@ =~= homes_of(windows@));
    if let ParkPlan::ShrinkToFit(targets) = parking_placement::plan_park_into_slot(
        homes.as_slice(),
        cell,
    ) {
        let mut i: usize = 0;
        while i < windows.len()
            invariant
                i <= windows@.len() == targets@.len(),
                (rects@, fullscreen@) == moved_in(before, windows@, targets@, fill, i as nat),
            decreases windows@.len() - i,
        {
            rects.insert(windows[i].0, targets[i]);
            if fill {
                fullscreen.insert(windows[i].0);
            }
            i += 1;
        }
    }
}

// ---------------------------------------------------------------------------
// Carrying it out
// ---------------------------------------------------------------------------

/// How a window was shown, as far as that could be read.
pub struct Reading {
    pub state: Option<SavedShowState>,
    pub rect: Option<PixelRect>,
}

/// What is done about a window once it was read.
pub open spec fn leaving_calls(
    hwnd: isize,
    rects: Map<isize, PixelRect>,
    fullscreen: Set<isize>,
) -> Seq<WindowCall> {
    if rects.contains_key(hwnd) {
        let placed = WindowCall::SetPlacement {
            hwnd,
            rect: rects[hwnd],
            maximized: false,
            fill: true,
        };
        if fullscreen.contains(hwnd) {
            seq![placed, WindowCall::FullscreenKeys { hwnd, refocus: None }]
        } else {
            seq![placed]
        }
    } else {
        seq![WindowCall::Minimize { hwnd }]
    }
}

/// Everything that is asked and done about a window. One that cannot be read stays as it is.
pub open spec fn emptying_calls(
    hwnd: isize,
    reading: Reading,
    rects: Map<isize, PixelRect>,
    fullscreen: Set<isize>,
) -> Seq<WindowCall> {
    let asked = WindowCall::ShowState { hwnd, found: reading.state };
    if reading.state is None {
        seq![asked]
    } else {
        let both = seq![asked, WindowCall::NormalRect { hwnd, found: reading.rect }];
        if reading.rect is None {
            both
        } else {
            both + leaving_calls(hwnd, rects, fullscreen)
        }
    }
}

pub open spec fn was_read(reading: Reading) -> bool {
    reading.state is Some && reading.rect is Some
}

pub open spec fn all_emptying_calls(
    windows: Seq<TopLevelWindow>,
    readings: Seq<Reading>,
    rects: Map<isize, PixelRect>,
    fullscreen: Set<isize>,
    n: nat,
) -> Seq<WindowCall>
    decreases n,
{
    if n == 0 {
        Seq::empty()
    } else {
        all_emptying_calls(windows, readings, rects, fullscreen, (n - 1) as nat) + emptying_calls(
            windows[n - 1].hwnd,
            readings[n - 1],
            rects,
            fullscreen,
        )
    }
}

/// What is needed to put the windows back that were read.
pub open spec fn undo_entries(
    windows: Seq<TopLevelWindow>,
    readings: Seq<Reading>,
    n: nat,
) -> Seq<UndoEntry>
    decreases n,
{
    if n == 0 {
        Seq::empty()
    } else {
        let before = undo_entries(windows, readings, (n - 1) as nat);
        let w = windows[n - 1];
        if was_read(readings[n - 1]) {
            before.push(
                UndoEntry {
                    hwnd: w.hwnd,
                    process_id: w.process_id,
                    before_rect: readings[n - 1].rect->0,
                    before_show_state: readings[n - 1].state->0,
                },
            )
        } else {
            before
        }
    }
}

/// How many of the windows that were read go to a place of their own, or are minimized.
pub open spec fn leaving_count(
    windows: Seq<TopLevelWindow>,
    readings: Seq<Reading>,
    rects: Map<isize, PixelRect>,
    placed: bool,
    n: nat,
) -> nat
    decreases n,
{
    if n == 0 {
        0
    } else {
        leaving_count(windows, readings, rects, placed, (n - 1) as nat) + if was_read(
            readings[n - 1],
        ) && rects.contains_key(windows[n - 1].hwnd) == placed {
            1
        } else {
            0nat
        }
    }
}

/// What came of emptying the screen.
#[derive(Debug)]
pub struct Emptied {
    /// Each window that left, with how it was shown before.
    pub entries: Vec<UndoEntry>,
    pub parked: usize,
    pub minimized: usize,
}

/// From one history to the other exactly the calls for `windows` were made, with some readings,
/// and `r` is what those readings give.
pub open spec fn empties(
    before: Seq<WindowCall>,
    after: Seq<WindowCall>,
    windows: Seq<TopLevelWindow>,
    rects: Map<isize, PixelRect>,
    fullscreen: Set<isize>,
    r: Emptied,
) -> bool {
    exists|readings: Seq<Reading>|
        {
            &&& readings.len() == windows.len()
            &&& after == before + #[trigger] all_emptying_calls(
                windows,
                readings,
                rects,
                fullscreen,
                windows.len(),
            )
            &&& r.entries@ == undo_entries(windows, readings, windows.len())
            &&& r.parked == leaving_count(windows, readings, rects, true, windows.len())
            &&& r.minimized == leaving_count(windows, readings, rects, false, windows.len())
        }
}

/// Sends the windows to their places and minimizes those that have none, having read how each is
/// shown. A window that cannot be read is left alone.
pub fn empty_main_screen<W: WindowOps>(
    ops: &mut Recorder<W>,
    windows: &[TopLevelWindow],
    rects: &HashMap<isize, PixelRect>,
    fullscreen: &HashSet<isize>,
) -> (r: Emptied)
    ensures
        final(ops).desktop() == old(ops).desktop(),
        empties(old(ops).history(), final(ops).history(), windows@, rects@, fullscreen@, r),
{
    let ghost start = ops.history();
    let ghost mut readings: Seq<Reading> = Seq::empty();
    let n: usize = windows.len();
    let mut entries: Vec<UndoEntry> = Vec::new();
    let mut parked: usize = 0;
    let mut minimized: usize = 0;
    let mut i: usize = 0;
    assert(start + Seq::<WindowCall>::empty() =~= start);
    while i < n
        invariant
            ops.desktop() == old(ops).desktop(),
            i <= n == windows@.len(),
            readings.len() == i,
            ops.history() == start + all_emptying_calls(
                windows@,
                readings,
                rects@,
                fullscreen@,
                i as nat,
            ),
            entries@ == undo_entries(windows@, readings, i as nat),
            parked == leaving_count(windows@, readings, rects@, true, i as nat),
            minimized == leaving_count(windows@, readings, rects@, false, i as nat),
            parked + minimized <= i,
        decreases n - i,
    {
        let ghost h0 = ops.history();
        let ghost readings0 = readings;
        let ghost e0 = entries@;
        let hwnd: isize = windows[i].hwnd;
        let process_id: u32 = windows[i].process_id;
        let (state, rect) = match ops.get_show_state(hwnd) {
            Ok(s) => match ops.get_normal_rect(hwnd) {
                Ok(b) => (Some(s), Some(b)),
                Err(_) => (Some(s), None),
            },
            Err(_) => (None, None),
        };
        let ghost reading = Reading { state, rect };
        if let (Some(before_show_state), Some(before_rect)) = (state, rect) {
            match rects.get(&hwnd) {
                Some(target) => {
                    ops.set_placement(hwnd, *target, false, true);
                    if fullscreen.contains(&hwnd) {
                        ops.send_fullscreen_keys(hwnd, None);
                    }
                    parked += 1;
                },
                None => {
                    ops.minimize(hwnd);
                    minimized += 1;
                },
            }
            entries.push(UndoEntry { hwnd, process_id, before_rect, before_show_state });
        }
        proof {
            readings = readings0.push(reading);
            lemma_calls_prefix(windows@, readings0, reading, rects@, fullscreen@, i as nat);
            let made = emptying_calls(hwnd, reading, rects@, fullscreen@);
            assert(ops.history() =~= h0 + made);
            assert(h0 + made =~= start + (all_emptying_calls(
                windows@,
                readings0,
                rects@,
                fullscreen@,
                i as nat,
            ) + made));
        }
        i += 1;
    }
    let r = Emptied { entries, parked, minimized };
    assert(start + all_emptying_calls(windows@, readings, rects@, fullscreen@, windows@.len())
        == ops.history());
    r
}

/// What the first readings give does not depend on the later ones.
proof fn lemma_calls_prefix(
    windows: Seq<TopLevelWindow>,
    readings: Seq<Reading>,
    more: Reading,
    rects: Map<isize, PixelRect>,
    fullscreen: Set<isize>,
    n: nat,
)
    requires
        n <= readings.len(),
    ensures
        all_emptying_calls(windows, readings.push(more), rects, fullscreen, n)
            == all_emptying_calls(windows, readings, rects, fullscreen, n),
        undo_entries(windows, readings.push(more), n) == undo_entries(windows, readings, n),
        leaving_count(windows, readings.push(more), rects, true, n) == leaving_count(
            windows,
            readings,
            rects,
            true,
            n,
        ),
        leaving_count(windows, readings.push(more), rects, false, n) == leaving_count(
            windows,
            readings,
            rects,
            false,
            n,
        ),
    decreases n,
{
    if n > 0 {
        lemma_calls_prefix(windows, readings, more, rects, fullscreen, (n - 1) as nat);
        assert(readings.push(more)[n - 1] == readings[n - 1]);
    }
}

/// Every window that leaves can be put back: as many entries as windows parked and minimized.
pub proof fn law_every_window_that_leaves_can_return(
    windows: Seq<TopLevelWindow>,
    readings: Seq<Reading>,
    rects: Map<isize, PixelRect>,
    n: nat,
)
    ensures
        undo_entries(windows, readings, n).len() == leaving_count(
            windows,
            readings,
            rects,
            true,
            n,
        ) + leaving_count(windows, readings, rects, false, n),
    decreases n,
{
    if n > 0 {
        law_every_window_that_leaves_can_return(windows, readings, rects, (n - 1) as nat);
    }
}

/// How a window was shown, as far as that could be read, and whether it could be moved.
pub struct Attempt {
    pub reading: Reading,
    pub moved: bool,
}

/// What is done about a window that was read, where it is moved by its frame: one that cannot be
/// moved is minimized.
pub open spec fn moving_calls(
    hwnd: isize,
    moved: bool,
    rects: Map<isize, PixelRect>,
    fullscreen: Set<isize>,
) -> Seq<WindowCall> {
    if rects.contains_key(hwnd) {
        let placed = seq![
            WindowCall::Restore { hwnd },
            WindowCall::BatchMove { moves: seq![(hwnd, rects[hwnd])], done: moved },
        ];
        if !moved {
            placed.push(WindowCall::Minimize { hwnd })
        } else if fullscreen.contains(hwnd) {
            placed.push(WindowCall::FullscreenKeys { hwnd, refocus: None })
        } else {
            placed
        }
    } else {
        seq![WindowCall::Minimize { hwnd }]
    }
}

/// Everything that is asked and done about a window that the user has ticked.
pub open spec fn attempt_calls(
    hwnd: isize,
    attempt: Attempt,
    rects: Map<isize, PixelRect>,
    fullscreen: Set<isize>,
) -> Seq<WindowCall> {
    let asked = WindowCall::ShowState { hwnd, found: attempt.reading.state };
    if attempt.reading.state is None {
        seq![asked]
    } else {
        let both = seq![asked, WindowCall::NormalRect { hwnd, found: attempt.reading.rect }];
        if attempt.reading.rect is None {
            both
        } else {
            both + moving_calls(hwnd, attempt.moved, rects, fullscreen)
        }
    }
}

pub open spec fn all_attempt_calls(
    windows: Seq<TopLevelWindow>,
    attempts: Seq<Attempt>,
    rects: Map<isize, PixelRect>,
    fullscreen: Set<isize>,
    n: nat,
) -> Seq<WindowCall>
    decreases n,
{
    if n == 0 {
        Seq::empty()
    } else {
        all_attempt_calls(windows, attempts, rects, fullscreen, (n - 1) as nat) + attempt_calls(
            windows[n - 1].hwnd,
            attempts[n - 1],
            rects,
            fullscreen,
        )
    }
}

/// The window was read, and went to a place of its own or was minimized.
pub open spec fn attempt_counts(
    w: TopLevelWindow,
    attempt: Attempt,
    rects: Map<isize, PixelRect>,
    placed: bool,
) -> bool {
    was_read(attempt.reading) && (rects.contains_key(w.hwnd) && attempt.moved) == placed
}

/// How many of the windows that were read went to a place of their own, or were minimized.
pub open spec fn attempt_count(
    windows: Seq<TopLevelWindow>,
    attempts: Seq<Attempt>,
    rects: Map<isize, PixelRect>,
    placed: bool,
    n: nat,
) -> nat
    decreases n,
{
    if n == 0 {
        0
    } else {
        attempt_count(windows, attempts, rects, placed, (n - 1) as nat) + if attempt_counts(
            windows[n - 1],
            attempts[n - 1],
            rects,
            placed,
        ) {
            1
        } else {
            0nat
        }
    }
}

pub open spec fn readings_of(attempts: Seq<Attempt>) -> Seq<Reading> {
    Seq::new(attempts.len(), |i: int| attempts[i].reading)
}

/// From one history to the other exactly the calls for the ticked windows were made, and `r` is
/// what came of them.
pub open spec fn empties_ticked(
    before: Seq<WindowCall>,
    after: Seq<WindowCall>,
    windows: Seq<TopLevelWindow>,
    rects: Map<isize, PixelRect>,
    fullscreen: Set<isize>,
    r: Emptied,
) -> bool {
    exists|attempts: Seq<Attempt>|
        {
            &&& attempts.len() == windows.len()
            &&& after == before + #[trigger] all_attempt_calls(
                windows,
                attempts,
                rects,
                fullscreen,
                windows.len(),
            )
            &&& r.entries@ == undo_entries(windows, readings_of(attempts), windows.len())
            &&& r.parked == attempt_count(windows, attempts, rects, true, windows.len())
            &&& r.minimized == attempt_count(windows, attempts, rects, false, windows.len())
        }
}

/// What the first attempts give does not depend on the later ones.
proof fn lemma_attempts_prefix(
    windows: Seq<TopLevelWindow>,
    attempts: Seq<Attempt>,
    more: Attempt,
    rects: Map<isize, PixelRect>,
    fullscreen: Set<isize>,
    n: nat,
)
    requires
        n <= attempts.len(),
    ensures
        all_attempt_calls(windows, attempts.push(more), rects, fullscreen, n)
            == all_attempt_calls(windows, attempts, rects, fullscreen, n),
        undo_entries(windows, readings_of(attempts.push(more)), n) == undo_entries(
            windows,
            readings_of(attempts),
            n,
        ),
        attempt_count(windows, attempts.push(more), rects, true, n) == attempt_count(
            windows,
            attempts,
            rects,
            true,
            n,
        ),
        attempt_count(windows, attempts.push(more), rects, false, n) == attempt_count(
            windows,
            attempts,
            rects,
            false,
            n,
        ),
    decreases n,
{
    if n > 0 {
        lemma_attempts_prefix(windows, attempts, more, rects, fullscreen, (n - 1) as nat);
        assert(attempts.push(more)[n - 1] == attempts[n - 1]);
    }
}

/// Sends the windows that the user has ticked to their places, having read how each is shown. One
/// without a place, or that cannot be moved, is minimized; one that cannot be read is left alone.
pub fn empty_ticked_windows<W: WindowOps>(
    ops: &mut Recorder<W>,
    windows: &[TopLevelWindow],
    rects: &HashMap<isize, PixelRect>,
    fullscreen: &HashSet<isize>,
) -> (r: Emptied)
    ensures
        final(ops).desktop() == old(ops).desktop(),
        empties_ticked(old(ops).history(), final(ops).history(), windows@, rects@, fullscreen@, r),
{
    let ghost start = ops.history();
    let ghost mut attempts: Seq<Attempt> = Seq::empty();
    let n: usize = windows.len();
    let mut entries: Vec<UndoEntry> = Vec::new();
    let mut parked: usize = 0;
    let mut minimized: usize = 0;
    let mut i: usize = 0;
    assert(start + Seq::<WindowCall>::empty() =~= start);
    while i < n
        invariant
            ops.desktop() == old(ops).desktop(),
            i <= n == windows@.len(),
            attempts.len() == i,
            ops.history() == start + all_attempt_calls(
                windows@,
                attempts,
                rects@,
                fullscreen@,
                i as nat,
            ),
            entries@ == undo_entries(windows@, readings_of(attempts), i as nat),
            parked == attempt_count(windows@, attempts, rects@, true, i as nat),
            minimized == attempt_count(windows@, attempts, rects@, false, i as nat),
            parked + minimized <= i,
        decreases n - i,
    {
        let ghost h0 = ops.history();
        let ghost attempts0 = attempts;
        let hwnd: isize = windows[i].hwnd;
        let process_id: u32 = windows[i].process_id;
        let (state, rect) = match ops.get_show_state(hwnd) {
            Ok(s) => match ops.get_normal_rect(hwnd) {
                Ok(b) => (Some(s), Some(b)),
                Err(_) => (Some(s), None),
            },
            Err(_) => (None, None),
        };
        let mut moved: bool = false;
        if let (Some(before_show_state), Some(before_rect)) = (state, rect) {
            if let Some(target) = rects.get(&hwnd) {
                ops.restore(hwnd);
                let one: Vec<(isize, PixelRect)> = vec![(hwnd, *target)];
                assert(one@ =~= seq![(hwnd, *target)]);
                moved = ops.batch_move(one.as_slice()).is_ok();
            }
            if moved {
                if fullscreen.contains(&hwnd) {
                    ops.send_fullscreen_keys(hwnd, None);
                }
                parked += 1;
            } else {
                ops.minimize(hwnd);
                minimized += 1;
            }
            entries.push(UndoEntry { hwnd, process_id, before_rect, before_show_state });
        }
        proof {
            let attempt = Attempt { reading: Reading { state, rect }, moved };
            attempts = attempts0.push(attempt);
            lemma_attempts_prefix(windows@, attempts0, attempt, rects@, fullscreen@, i as nat);
            let made = attempt_calls(hwnd, attempt, rects@, fullscreen@);
            assert(ops.history() =~= h0 + made);
            assert(h0 + made =~= start + (all_attempt_calls(
                windows@,
                attempts0,
                rects@,
                fullscreen@,
                i as nat,
            ) + made));
            assert(readings_of(attempts)[i as int] == attempt.reading);
        }
        i += 1;
    }
    let r = Emptied { entries, parked, minimized };
    assert(start + all_attempt_calls(windows@, attempts, rects@, fullscreen@, windows@.len())
        == ops.history());
    r
}

/// The windows whose box is ticked. A window without a box is not.
pub open spec fn ticked(windows: Seq<TopLevelWindow>, boxes: Seq<bool>, n: nat) -> Seq<
    TopLevelWindow,
>
    decreases n,
{
    if n == 0 {
        Seq::empty()
    } else {
        let before = ticked(windows, boxes, (n - 1) as nat);
        if n - 1 < boxes.len() && boxes[n - 1] {
            before.push(windows[n - 1])
        } else {
            before
        }
    }
}

/// Picks the windows that the user has ticked, in the order in which they were offered.
pub fn checked_windows(windows: &[TopLevelWindow], boxes: &[bool]) -> (r: Vec<TopLevelWindow>)
    ensures
        r@ == ticked(windows@, boxes@, windows@.len()),
{
    let mut out: Vec<TopLevelWindow> = Vec::new();
    let mut i: usize = 0;
    while i < windows.len()
        invariant
            i <= windows@.len(),
            out@ == ticked(windows@, boxes@, i as nat),
        decreases windows@.len() - i,
    {
        if i < boxes.len() && boxes[i] {
            out.push(windows[i].clone());
        }
        i += 1;
    }
    out
}

/// What is done to put one window back, given whether it could be moved. A window that was
/// maximized or minimized becomes so again once it stands where it was.
pub open spec fn putting_back(e: UndoEntry, moved: bool) -> Seq<WindowCall> {
    let placed = seq![
        WindowCall::Restore { hwnd: e.hwnd },
        WindowCall::BatchMove { moves: seq![(e.hwnd, e.before_rect)], done: moved },
    ];
    if !moved {
        placed
    } else {
        match e.before_show_state {
            SavedShowState::Maximized => placed.push(WindowCall::Maximize { hwnd: e.hwnd }),
            SavedShowState::Minimized => placed.push(WindowCall::Minimize { hwnd: e.hwnd }),
            SavedShowState::Normal => placed,
        }
    }
}

pub open spec fn all_putting_back(entries: Seq<UndoEntry>, moved: Seq<bool>, n: nat) -> Seq<
    WindowCall,
>
    decreases n,
{
    if n == 0 {
        Seq::empty()
    } else {
        all_putting_back(entries, moved, (n - 1) as nat) + putting_back(
            entries[n - 1],
            moved[n - 1],
        )
    }
}

proof fn lemma_putting_back_prefix(
    entries: Seq<UndoEntry>,
    moved: Seq<bool>,
    more: bool,
    n: nat,
)
    requires
        n <= moved.len(),
    ensures
        all_putting_back(entries, moved.push(more), n) == all_putting_back(entries, moved, n),
    decreases n,
{
    if n > 0 {
        lemma_putting_back_prefix(entries, moved, more, (n - 1) as nat);
        assert(moved.push(more)[n - 1] == moved[n - 1]);
    }
}

/// From one history to the other exactly the calls were made that put the windows back, with some
/// of them moved.
pub open spec fn puts_back(
    before: Seq<WindowCall>,
    after: Seq<WindowCall>,
    entries: Seq<UndoEntry>,
) -> bool {
    exists|moved: Seq<bool>|
        moved.len() == entries.len() && after == before + #[trigger] all_putting_back(
            entries,
            moved,
            entries.len(),
        )
}

/// Puts every window back to where it was before the screen was emptied. One that cannot be moved
/// is passed over.
pub fn perform_undo<W: WindowOps>(ops: &mut Recorder<W>, snapshot: &UndoSnapshot)
    ensures
        final(ops).desktop() == old(ops).desktop(),
        puts_back(old(ops).history(), final(ops).history(), snapshot.entries@),
{
    let ghost start = ops.history();
    let ghost entries = snapshot.entries@;
    let ghost mut fates: Seq<bool> = Seq::empty();
    let mut i: usize = 0;
    assert(start + Seq::<WindowCall>::empty() =~= start);
    while i < snapshot.entries.len()
        invariant
            ops.desktop() == old(ops).desktop(),
            i <= entries.len(),
            entries == snapshot.entries@,
            fates.len() == i,
            ops.history() == start + all_putting_back(entries, fates, i as nat),
        decreases entries.len() - i,
    {
        let ghost h0 = ops.history();
        let ghost fates0 = fates;
        let entry = snapshot.entries[i];
        ops.restore(entry.hwnd);
        let one: Vec<(isize, PixelRect)> = vec![(entry.hwnd, entry.before_rect)];
        assert(one@ =~= seq![(entry.hwnd, entry.before_rect)]);
        let moved = ops.batch_move(one.as_slice()).is_ok();
        if moved {
            match entry.before_show_state {
                SavedShowState::Maximized => ops.maximize(entry.hwnd),
                SavedShowState::Minimized => ops.minimize(entry.hwnd),
                SavedShowState::Normal => {},
            }
        }
        proof {
            fates = fates0.push(moved);
            lemma_putting_back_prefix(entries, fates0, moved, i as nat);
            let made = putting_back(entry, moved);
            assert(ops.history() =~= h0 + made);
            assert(h0 + made =~= start + (all_putting_back(entries, fates0, i as nat) + made));
        }
        i += 1;
    }
    assert(start + all_putting_back(entries, fates, entries.len()) == ops.history());
}

/// Says how many windows went where.
pub fn emptied_message(parked: usize, minimized: usize) -> (r: String)
    ensures
        r@ == text::decimal(parked as nat) + "個を退避、"@ + text::decimal(minimized as nat)
            + "個を最小化しました。"@,
{
    let mut out = text::decimal_text(parked as u64);
    out.append("個を退避、");
    out.append(text::decimal_text(minimized as u64).as_str());
    out.append("個を最小化しました。");
    out
}

/// Says how many windows were minimized.
pub fn minimized_message(count: usize) -> (r: String)
    ensures
        r@ == text::decimal(count as nat) + "個のウィンドウを最小化しました。"@,
{
    let mut out = text::decimal_text(count as u64);
    out.append("個のウィンドウを最小化しました。");
    out
}

/// Says how many windows were put back.
pub fn put_back_message(count: usize) -> (r: String)
    ensures
        r@ == text::decimal(count as nat) + "個のウィンドウを元に戻しました。"@,
{
    let mut out = text::decimal_text(count as u64);
    out.append("個のウィンドウを元に戻しました。");
    out
}

} // verus!
