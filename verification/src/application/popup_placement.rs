//! Where the quick switcher pops up.

use vstd::prelude::*;

use crate::application::monitor_resolution;
use crate::domain::config::PopupLocation;
use crate::domain::monitor::MonitorInfo;
use crate::domain::placement;
use crate::domain::placement::PixelRect;

verus! {

/// The first monitor whose bounds hold the point.
pub open spec fn monitor_under(live: Seq<MonitorInfo>, x: int, y: int) -> Option<MonitorInfo>
    decreases live.len(),
{
    if live.len() == 0 {
        None
    } else if live[0].bounds_px.covers(x, y) {
        Some(live[0])
    } else {
        monitor_under(live.skip(1), x, y)
    }
}

/// The first monitor that is the primary one.
pub open spec fn primary(live: Seq<MonitorInfo>) -> Option<MonitorInfo>
    decreases live.len(),
{
    if live.len() == 0 {
        None
    } else if live[0].is_primary {
        Some(live[0])
    } else {
        primary(live.skip(1))
    }
}

/// The monitor that the popup is centred on: the one that the setting names, else the primary
/// one, else the first.
pub open spec fn popup_monitor(
    location: PopupLocation,
    cursor: (i32, i32),
    live: Seq<MonitorInfo>,
    main_ids: Seq<String>,
) -> Option<MonitorInfo> {
    let wanted = match location {
        PopupLocation::CursorMonitorCenter => monitor_under(live, cursor.0 as int, cursor.1 as int),
        PopupLocation::MainMonitorCenter => if main_ids.len() == 0 {
            None
        } else {
            monitor_resolution::live_monitor(live, main_ids[0]@)
        },
    };
    if wanted is Some {
        wanted
    } else if primary(live) is Some {
        primary(live)
    } else if live.len() > 0 {
        Some(live[0])
    } else {
        None
    }
}

fn find_under(live: &[MonitorInfo], x: i32, y: i32) -> (r: Option<&MonitorInfo>)
    ensures
        match r {
            Some(m) => monitor_under(live@, x as int, y as int) == Some(*m),
            None => monitor_under(live@, x as int, y as int) is None,
        },
{
    let mut i: usize = 0;
    assert(live@.skip(0) =~= live@);
    while i < live.len()
        invariant
            i <= live@.len(),
            monitor_under(live@, x as int, y as int) == monitor_under(
                live@.skip(i as int),
                x as int,
                y as int,
            ),
        decreases live@.len() - i,
    {
        if live[i].bounds_px.contains_point(x, y) {
            return Some(&live[i]);
        }
        assert(live@.skip(i as int).skip(1) =~= live@.skip(i + 1));
        i += 1;
    }
    None
}

fn find_primary(live: &[MonitorInfo]) -> (r: Option<&MonitorInfo>)
    ensures
        match r {
            Some(m) => primary(live@) == Some(*m),
            None => primary(live@) is None,
        },
{
    let mut i: usize = 0;
    assert(live@.skip(0) =~= live@);
    while i < live.len()
        invariant
            i <= live@.len(),
            primary(live@) == primary(live@.skip(i as int)),
        decreases live@.len() - i,
    {
        if live[i].is_primary {
            return Some(&live[i]);
        }
        assert(live@.skip(i as int).skip(1) =~= live@.skip(i + 1));
        i += 1;
    }
    None
}

/// The top-left corner of a popup of size `popup_size`, centred on the monitor that `location`
/// names. Without any monitor it is the origin.
pub fn resolve_popup_position(
    location: PopupLocation,
    cursor_pos: (i32, i32),
    live_monitors: &[MonitorInfo],
    main_monitor_ids: &[String],
    popup_size: (i32, i32),
) -> (r: (i32, i32))
    ensures
        match popup_monitor(location, cursor_pos, live_monitors@, main_monitor_ids@) {
            Some(m) => {
                &&& r.0 == placement::clamped(
                    m.bounds_px.mid_x() - placement::quotient(popup_size.0 as int, 2),
                )
                &&& r.1 == placement::clamped(
                    m.bounds_px.mid_y() - placement::quotient(popup_size.1 as int, 2),
                )
            },
            None => r == (0i32, 0i32),
        },
        popup_monitor(location, cursor_pos, live_monitors@, main_monitor_ids@) is None
            <==> live_monitors@.len() == 0,
{
    let wanted = match location {
        PopupLocation::CursorMonitorCenter => find_under(
            live_monitors,
            cursor_pos.0,
            cursor_pos.1,
        ),
        PopupLocation::MainMonitorCenter => if main_monitor_ids.len() == 0 {
            None
        } else {
            monitor_resolution::find_live_monitor_by_stable_id(
                live_monitors,
                main_monitor_ids[0].as_str(),
            )
        },
    };
    let target = match wanted {
        Some(m) => Some(m),
        None => match find_primary(live_monitors) {
            Some(m) => Some(m),
            None => if live_monitors.len() > 0 {
                Some(&live_monitors[0])
            } else {
                None
            },
        },
    };
    match target {
        Some(m) => {
            let (cx, cy) = m.bounds_px.center_wide();
            (
                placement::clamp_to_i32(cx as i128 - (popup_size.0 / 2) as i128),
                placement::clamp_to_i32(cy as i128 - (popup_size.1 / 2) as i128),
            )
        },
        None => (0, 0),
    }
}

proof fn lemma_under(live: Seq<MonitorInfo>, x: int, y: int, k: int)
    requires
        0 <= k <= live.len(),
        forall|j: int| 0 <= j < k ==> !(#[trigger] live[j]).bounds_px.covers(x, y),
        k < live.len() ==> live[k].bounds_px.covers(x, y),
    ensures
        monitor_under(live, x, y) == if k < live.len() {
            Some(live[k])
        } else {
            None
        },
    decreases k,
{
    if k > 0 {
        let rest = live.skip(1);
        assert(forall|j: int| 0 <= j < rest.len() ==> #[trigger] rest[j] == live[j + 1]);
        lemma_under(rest, x, y, k - 1);
    }
}

proof fn lemma_primary(live: Seq<MonitorInfo>, k: int)
    requires
        0 <= k <= live.len(),
        forall|j: int| 0 <= j < k ==> !(#[trigger] live[j]).is_primary,
        k < live.len() ==> live[k].is_primary,
    ensures
        primary(live) == if k < live.len() {
            Some(live[k])
        } else {
            None
        },
    decreases k,
{
    if k > 0 {
        let rest = live.skip(1);
        assert(forall|j: int| 0 <= j < rest.len() ==> #[trigger] rest[j] == live[j + 1]);
        lemma_primary(rest, k - 1);
    }
}

/// A popup that follows the pointer comes up on the monitor that shows the pointer.
pub proof fn law_popup_follows_the_pointer(
    cursor: (i32, i32),
    live: Seq<MonitorInfo>,
    main_ids: Seq<String>,
    k: int,
)
    requires
        0 <= k < live.len(),
        live[k].bounds_px.x <= cursor.0 < live[k].bounds_px.x + live[k].bounds_px.width,
        live[k].bounds_px.y <= cursor.1 < live[k].bounds_px.y + live[k].bounds_px.height,
        forall|j: int| 0 <= j < k ==> !(#[trigger] live[j]).bounds_px.meets(live[k].bounds_px),
    ensures
        popup_monitor(PopupLocation::CursorMonitorCenter, cursor, live, main_ids) == Some(live[k]),
{
    assert forall|j: int| 0 <= j < k implies !(#[trigger] live[j]).bounds_px.covers(
        cursor.0 as int,
        cursor.1 as int,
    ) by {
        assert(!live[j].bounds_px.meets(live[k].bounds_px));
    }
    lemma_under(live, cursor.0 as int, cursor.1 as int, k);
}

/// A popup on the main screen comes up on the monitor that the main screen names first, where that
/// one is connected.
pub proof fn law_popup_comes_up_on_the_main_screen(
    cursor: (i32, i32),
    live: Seq<MonitorInfo>,
    main_ids: Seq<String>,
    k: int,
)
    requires
        0 <= k < live.len(),
        main_ids.len() > 0,
        live[k].device_name@ == main_ids[0]@,
        forall|a: int, b: int|
            0 <= a < b < live.len() ==> (#[trigger] live[a]).device_name@ != (
            #[trigger] live[b]).device_name@,
    ensures
        popup_monitor(PopupLocation::MainMonitorCenter, cursor, live, main_ids) == Some(live[k]),
{
    monitor_resolution::law_monitor_is_found_by_its_name(live, k);
}

/// Where no connected monitor is the one asked for, the popup comes up on the primary one, and where
/// there is none of these either, on the first.
pub proof fn law_popup_falls_back_to_the_primary_monitor(
    location: PopupLocation,
    cursor: (i32, i32),
    live: Seq<MonitorInfo>,
    main_ids: Seq<String>,
    k: int,
)
    requires
        0 < live.len(),
        0 <= k <= live.len(),
        forall|j: int|
            0 <= j < live.len() ==> match location {
                PopupLocation::CursorMonitorCenter => !(#[trigger] live[j]).bounds_px.covers(
                    cursor.0 as int,
                    cursor.1 as int,
                ),
                PopupLocation::MainMonitorCenter => main_ids.len() > 0 ==> live[j].device_name@
                    != main_ids[0]@,
            },
        forall|j: int| 0 <= j < k ==> !(#[trigger] live[j]).is_primary,
        k < live.len() ==> live[k].is_primary,
    ensures
        popup_monitor(location, cursor, live, main_ids) == Some(
            if k < live.len() {
                live[k]
            } else {
                live[0]
            },
        ),
{
    lemma_primary(live, k);
    match location {
        PopupLocation::CursorMonitorCenter => {
            lemma_under(live, cursor.0 as int, cursor.1 as int, live.len() as int);
        },
        PopupLocation::MainMonitorCenter => {
            if main_ids.len() > 0 {
                monitor_resolution::lemma_live_monitor(live, main_ids[0]@);
            }
        },
    }
}

/// A popup leaves as much room on one side as on the other, to two pixels.
pub proof fn law_popup_is_centred(bounds: PixelRect, size: (i32, i32), r: (i32, i32))
    requires
        r.0 == placement::clamped(bounds.mid_x() - placement::quotient(size.0 as int, 2)),
        r.1 == placement::clamped(bounds.mid_y() - placement::quotient(size.1 as int, 2)),
        i32::MIN < r.0 < i32::MAX,
        i32::MIN < r.1 < i32::MAX,
    ensures
        -2 <= (r.0 - bounds.x) - (bounds.x + bounds.width - (r.0 + size.0)) <= 2,
        -2 <= (r.1 - bounds.y) - (bounds.y + bounds.height - (r.1 + size.1)) <= 2,
{
}

} // verus!
