//! Bringing a window back to its place on the main screen.

use vstd::prelude::*;

use crate::application::monitor_resolution;
use crate::domain::monitor::MonitorInfo;
use crate::domain::placement;
use crate::domain::placement::{PixelRect, SavedPlacement, SavedShowState};

verus! {

/// No window is brought back smaller than this.
pub const MIN_WINDOW_WIDTH: i32 = 160;

pub const MIN_WINDOW_HEIGHT: i32 = 90;

#[derive(Clone, Copy, Debug, PartialEq, Eq, Structural)]
pub struct RestoreOutcome {
    pub rect: PixelRect,
    /// Only ever normal or maximized.
    pub show_state: SavedShowState,
}

/// The main monitor that a placement goes to: the one it was saved on where that is connected,
/// and the first connected main monitor otherwise.
pub open spec fn home_monitor(
    index: usize,
    live: Seq<MonitorInfo>,
    main_ids: Seq<String>,
) -> Option<MonitorInfo> {
    let own = if index < main_ids.len() {
        monitor_resolution::live_monitor(live, main_ids[index as int]@)
    } else {
        None
    };
    match own {
        Some(m) => Some(m),
        None => monitor_resolution::first_live(live, main_ids),
    }
}

/// A coordinate moved back where its window would lie wholly outside on that axis.
pub open spec fn nudged(at: int, length: int, from: int, extent: int) -> int {
    let a = if at + length <= from {
        from
    } else {
        at
    };
    if a >= from + extent {
        placement::clamped(from + extent - length)
    } else {
        a
    }
}

/// `rect` moved back on each axis on which it lies wholly outside `area`.
pub open spec fn brought_inside(rect: PixelRect, area: PixelRect) -> PixelRect {
    PixelRect {
        x: nudged(rect.x as int, rect.width as int, area.x as int, area.width as int) as i32,
        y: nudged(rect.y as int, rect.height as int, area.y as int, area.height as int) as i32,
        ..rect
    }
}

/// The rectangle that a saved placement takes on the work area `area`.
pub open spec fn restored_rect(saved: SavedPlacement, area: PixelRect) -> PixelRect {
    let rect = placement::denormalized(saved.normalized_rect, area);
    let sized = PixelRect {
        width: placement::max_of(rect.width as int, MIN_WINDOW_WIDTH as int) as i32,
        height: placement::max_of(rect.height as int, MIN_WINDOW_HEIGHT as int) as i32,
        ..rect
    };
    brought_inside(sized, area)
}

/// A window comes back maximized if it was, and normal otherwise.
pub open spec fn restored_state(state: SavedShowState) -> SavedShowState {
    match state {
        SavedShowState::Maximized => SavedShowState::Maximized,
        _ => SavedShowState::Normal,
    }
}

/// Where `saved` lands on the connected monitors.
pub open spec fn restore_of(
    saved: SavedPlacement,
    live: Seq<MonitorInfo>,
    main_ids: Seq<String>,
) -> Option<RestoreOutcome> {
    match home_monitor(saved.main_monitor_index, live, main_ids) {
        Some(m) => Some(
            RestoreOutcome {
                rect: restored_rect(saved, m.work_area_px),
                show_state: restored_state(saved.show_state),
            },
        ),
        None => None,
    }
}

/// Computes where `saved` lands on the connected monitors. There is no answer only where not a
/// single main monitor is connected.
pub fn resolve_main_restore(
    saved: &SavedPlacement,
    live_monitors: &[MonitorInfo],
    main_monitor_ids: &[String],
) -> (r: Option<RestoreOutcome>)
    ensures
        r == restore_of(*saved, live_monitors@, main_monitor_ids@),
{
    let own = if saved.main_monitor_index < main_monitor_ids.len() {
        monitor_resolution::find_live_monitor_by_stable_id(
            live_monitors,
            main_monitor_ids[saved.main_monitor_index].as_str(),
        )
    } else {
        None
    };
    let home = match own {
        Some(m) => Some(m),
        None => monitor_resolution::find_first_live(live_monitors, main_monitor_ids),
    };
    let area = match home {
        Some(m) => m.work_area_px,
        None => {
            return None;
        },
    };
    let mut rect = placement::denormalize(saved.normalized_rect, area);
    if rect.width < MIN_WINDOW_WIDTH {
        rect.width = MIN_WINDOW_WIDTH;
    }
    if rect.height < MIN_WINDOW_HEIGHT {
        rect.height = MIN_WINDOW_HEIGHT;
    }
    let rect = clamp_not_fully_outside(rect, area);
    let show_state = match saved.show_state {
        SavedShowState::Maximized => SavedShowState::Maximized,
        SavedShowState::Minimized | SavedShowState::Normal => SavedShowState::Normal,
    };
    Some(RestoreOutcome { rect, show_state })
}

fn nudge(at: i32, length: i32, from: i32, extent: i32) -> (r: i32)
    ensures
        r == nudged(at as int, length as int, from as int, extent as int),
{
    let end: i64 = from as i64 + extent as i64;
    let a: i32 = if at as i64 + length as i64 <= from as i64 {
        from
    } else {
        at
    };
    if a as i64 >= end {
        placement::clamp_to_i32((end - length as i64) as i128)
    } else {
        a
    }
}

/// Moves `rect` back where it lies wholly outside `work_area` along an axis, without resizing it.
fn clamp_not_fully_outside(rect: PixelRect, work_area: PixelRect) -> (r: PixelRect)
    ensures
        r == brought_inside(rect, work_area),
{
    PixelRect {
        x: nudge(rect.x, rect.width, work_area.x, work_area.width),
        y: nudge(rect.y, rect.height, work_area.y, work_area.height),
        width: rect.width,
        height: rect.height,
    }
}

/// A restored window has at least the least size, reaches into the work area, and is never
/// minimized.
pub proof fn law_restored_window_is_reachable(
    saved: SavedPlacement,
    live: Seq<MonitorInfo>,
    main_ids: Seq<String>,
)
    requires
        restore_of(saved, live, main_ids) is Some,
    ensures
        ({
            let out = restore_of(saved, live, main_ids)->0;
            let area = home_monitor(saved.main_monitor_index, live, main_ids)->0.work_area_px;
            &&& out.rect.width >= MIN_WINDOW_WIDTH
            &&& out.rect.height >= MIN_WINDOW_HEIGHT
            &&& !(out.show_state is Minimized)
            &&& area.fits() && area.width > 0 && area.height > 0 ==> out.rect.meets(area)
        }),
{
}

/// A placement has a place as long as one main monitor is connected, whatever index it was
/// saved with.
pub proof fn law_some_main_monitor_suffices(
    saved: SavedPlacement,
    live: Seq<MonitorInfo>,
    main_ids: Seq<String>,
)
    ensures
        restore_of(saved, live, main_ids) is None <==> (forall|i: int|
            0 <= i < main_ids.len() ==> monitor_resolution::live_monitor(
                live,
                (#[trigger] main_ids[i])@,
            ) is None),
{
    lemma_first_live(live, main_ids);
}

proof fn lemma_first_live(live: Seq<MonitorInfo>, ids: Seq<String>)
    ensures
        monitor_resolution::first_live(live, ids) is None <==> (forall|i: int|
            0 <= i < ids.len() ==> monitor_resolution::live_monitor(live, (#[trigger] ids[i])@)
                is None),
    decreases ids.len(),
{
    if ids.len() > 0 {
        let rest = ids.skip(1);
        lemma_first_live(live, rest);
        assert(forall|i: int| 0 <= i < rest.len() ==> #[trigger] rest[i] == ids[i + 1]);
        if monitor_resolution::live_monitor(live, ids[0]@) is None {
            assert((forall|i: int|
                0 <= i < ids.len() ==> monitor_resolution::live_monitor(live, (#[trigger] ids[i])@)
                    is None) ==> (forall|i: int|
                0 <= i < rest.len() ==> monitor_resolution::live_monitor(
                    live,
                    (#[trigger] rest[i])@,
                ) is None));
            if forall|i: int|
                0 <= i < rest.len() ==> monitor_resolution::live_monitor(
                    live,
                    (#[trigger] rest[i])@,
                ) is None {
                assert forall|i: int| 0 <= i < ids.len() implies monitor_resolution::live_monitor(
                    live,
                    (#[trigger] ids[i])@,
                ) is None by {
                    if i > 0 {
                        assert(rest[i - 1] == ids[i]);
                    }
                }
            }
        }
    }
}

/// A window that was registered where it stood comes back to that very place, as long as its
/// monitor is still there unchanged.
pub proof fn law_registered_window_comes_back(
    saved: SavedPlacement,
    rect: PixelRect,
    live: Seq<MonitorInfo>,
    main_ids: Seq<String>,
)
    requires
        saved.main_monitor_index < main_ids.len(),
        monitor_resolution::live_monitor(
            live,
            main_ids[saved.main_monitor_index as int]@,
        ) matches Some(m) && saved.normalized_rect == placement::normalized(rect, m.work_area_px)
            && 0 < m.work_area_px.width < placement::NORMALIZED_UNIT && 0 < m.work_area_px.height
            < placement::NORMALIZED_UNIT && rect.meets(m.work_area_px),
        rect.width >= MIN_WINDOW_WIDTH,
        rect.height >= MIN_WINDOW_HEIGHT,
    ensures
        restore_of(saved, live, main_ids) == Some(
            RestoreOutcome { rect, show_state: restored_state(saved.show_state) },
        ),
{
    let m = monitor_resolution::live_monitor(
        live,
        main_ids[saved.main_monitor_index as int]@,
    )->0;
    placement::law_place_survives_as_fractions(rect, m.work_area_px);
}

/// A window goes back to the monitor that it was registered on, where that one is connected, and
/// otherwise to the connected monitor that the main screen names first.
pub proof fn law_window_goes_to_its_own_monitor(
    index: usize,
    live: Seq<MonitorInfo>,
    main_ids: Seq<String>,
    k: int,
    i: int,
)
    requires
        0 <= k < live.len(),
        forall|a: int, b: int|
            0 <= a < b < live.len() ==> (#[trigger] live[a]).device_name@ != (
            #[trigger] live[b]).device_name@,
        0 <= i < main_ids.len(),
        main_ids[i]@ == live[k].device_name@,
        i == index || {
            &&& forall|j: int|
                0 <= j < i ==> forall|a: int|
                    0 <= a < live.len() ==> (#[trigger] live[a]).device_name@ != (
                    #[trigger] main_ids[j])@
            &&& index < main_ids.len() ==> forall|a: int|
                0 <= a < live.len() ==> (#[trigger] live[a]).device_name@
                    != main_ids[index as int]@
        },
    ensures
        home_monitor(index, live, main_ids) == Some(live[k]),
{
    monitor_resolution::law_monitor_is_found_by_its_name(live, k);
    if index < main_ids.len() && i != index {
        monitor_resolution::lemma_live_monitor(live, main_ids[index as int]@);
        let own = monitor_resolution::live_monitor(live, main_ids[index as int]@);
        if own is Some {
            let a = choose|a: int| 0 <= a < live.len() && live[a] == own->0;
            assert(live[a].device_name@ == main_ids[index as int]@);
        }
    }
    if i != index {
        lemma_first_named(live, main_ids, i);
    }
}

proof fn lemma_first_named(live: Seq<MonitorInfo>, ids: Seq<String>, i: int)
    requires
        0 <= i < ids.len(),
        monitor_resolution::live_monitor(live, ids[i]@) is Some,
        forall|j: int|
            0 <= j < i ==> forall|a: int|
                0 <= a < live.len() ==> (#[trigger] live[a]).device_name@ != (#[trigger] ids[j])@,
    ensures
        monitor_resolution::first_live(live, ids) == monitor_resolution::live_monitor(
            live,
            ids[i]@,
        ),
    decreases i,
{
    if i > 0 {
        monitor_resolution::lemma_live_monitor(live, ids[0]@);
        let first = monitor_resolution::live_monitor(live, ids[0]@);
        if first is Some {
            let a = choose|a: int| 0 <= a < live.len() && live[a] == first->0;
            assert(live[a].device_name@ == ids[0]@);
        }
        let rest = ids.skip(1);
        assert(forall|j: int| 0 <= j < rest.len() ==> #[trigger] rest[j] == ids[j + 1]);
        lemma_first_named(live, rest, i - 1);
    }
}

/// A window is brought back with the size that it had, but for one below 160 by 90 pixels, which
/// grows to that. It stays where it was on each axis on which the work area shows some of it. Where
/// it would lie wholly before the area it comes to the near edge, and where it would lie wholly
/// behind, to the far one.
pub proof fn law_place_is_kept_where_it_can_be_seen(saved: SavedPlacement, area: PixelRect)
    requires
        area.width > 0,
        area.height > 0,
    ensures
        ({
            let was = placement::denormalized(saved.normalized_rect, area);
            let now = restored_rect(saved, area);
            &&& was.width >= 160 ==> now.width == was.width
            &&& was.width < 160 ==> now.width == 160
            &&& was.height >= 90 ==> now.height == was.height
            &&& was.height < 90 ==> now.height == 90
            &&& was.x + now.width > area.x && was.x < area.x + area.width ==> now.x == was.x
            &&& was.x + now.width <= area.x ==> now.x == area.x
            &&& was.x >= area.x + area.width && area.x + area.width - now.width >= i32::MIN
                ==> now.x + now.width == area.x + area.width
            &&& was.y + now.height > area.y && was.y < area.y + area.height ==> now.y == was.y
            &&& was.y + now.height <= area.y ==> now.y == area.y
            &&& was.y >= area.y + area.height && area.y + area.height - now.height >= i32::MIN
                ==> now.y + now.height == area.y + area.height
        }),
{
}

/// A window comes back filling its monitor exactly where it was registered so.
pub proof fn law_only_maximized_windows_come_back_maximized(state: SavedShowState)
    ensures
        restored_state(state) is Maximized <==> state is Maximized,
        restored_state(state) is Normal <==> !(state is Maximized),
{
}

} // verus!
