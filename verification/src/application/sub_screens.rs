//! Named parking areas: their region, and the cell of each set that parks there.

use vstd::prelude::*;
use std::collections::HashSet;

use crate::application::layout_service;
use crate::application::monitor_resolution;
use crate::application::parking_allocator;
use crate::application::parking_cells;
use crate::domain::monitor::{AutoSplit, MonitorInfo};
use crate::domain::placement;
use crate::domain::placement::PixelRect;
use crate::domain::workset::{ParkingPolicy, SubScreen, Workset};
use crate::ids::Uuid;
use crate::order;

verus! {

broadcast use vstd::std_specs::hash::group_hash_axioms;

/// The work areas of the connected ones among the named monitors, in the order named.
pub open spec fn areas_of(ids: Seq<String>, live: Seq<MonitorInfo>) -> Seq<PixelRect>
    decreases ids.len(),
{
    if ids.len() == 0 {
        Seq::empty()
    } else {
        let before = areas_of(ids.drop_last(), live);
        match monitor_resolution::live_monitor(live, ids.last()@) {
            Some(m) => before.push(m.work_area_px),
            None => before,
        }
    }
}

/// The region of a named area: all its connected monitors together, or the chosen cell of the
/// first of them.
pub open spec fn region_of(sub: SubScreen, live: Seq<MonitorInfo>) -> Option<PixelRect> {
    let areas = areas_of(sub.monitor_ids@, live);
    if areas.len() == 0 {
        None
    } else if sub.split == AutoSplit::One || sub.cell_index >= sub.split.cells() {
        placement::bounds_of(areas)
    } else {
        Some(layout_service::split_cells(areas[0], sub.split)[sub.cell_index as int])
    }
}

proof fn lemma_bounds_fit(rects: Seq<PixelRect>)
    requires
        rects.len() > 0,
        forall|i: int| 0 <= i < rects.len() ==> (#[trigger] rects[i]).fits(),
    ensures
        i32::MIN <= placement::left_most(rects) <= i32::MAX,
        i32::MIN <= placement::top_most(rects) <= i32::MAX,
        i32::MIN <= placement::right_most(rects) <= i32::MAX,
        i32::MIN <= placement::bottom_most(rects) <= i32::MAX,
        (placement::bounds_of(rects)->0).fits(),
    decreases rects.len(),
{
    assert(rects[0].fits());
    if rects.len() > 1 {
        let rest = rects.drop_last();
        assert forall|i: int| 0 <= i < rest.len() implies (#[trigger] rest[i]).fits() by {
            assert(rects[i].fits());
        }
        lemma_bounds_fit(rest);
        assert(rects[rects.len() - 1].fits());
    }
}

/// The region that a named area parks into; none where none of its monitors is connected.
pub fn sub_screen_target_rect(sub: &SubScreen, live_monitors: &[MonitorInfo]) -> (r: Option<
    PixelRect,
>)
    requires
        parking_allocator::monitors_fit(live_monitors@),
    ensures
        r == region_of(*sub, live_monitors@),
        r matches Some(rect) ==> rect.fits(),
{
    let mut areas: Vec<PixelRect> = Vec::new();
    let mut i: usize = 0;
    assert(areas@ =~= areas_of(sub.monitor_ids@.take(0), live_monitors@));
    while i < sub.monitor_ids.len()
        invariant
            i <= sub.monitor_ids@.len(),
            parking_allocator::monitors_fit(live_monitors@),
            areas@ == areas_of(sub.monitor_ids@.take(i as int), live_monitors@),
            forall|k: int| 0 <= k < areas@.len() ==> (#[trigger] areas@[k]).fits(),
        decreases sub.monitor_ids@.len() - i,
    {
        proof {
            assert(sub.monitor_ids@.take(i + 1).drop_last() =~= sub.monitor_ids@.take(i as int));
        }
        if let Some(m) = monitor_resolution::find_live_monitor_by_stable_id(
            live_monitors,
            sub.monitor_ids[i].as_str(),
        ) {
            proof {
                let k = choose|k: int| 0 <= k < live_monitors@.len() && live_monitors@[k] == *m;
                assert(live_monitors@[k].work_area_px.fits());
            }
            areas.push(m.work_area_px);
        }
        i += 1;
    }
    assert(sub.monitor_ids@.take(sub.monitor_ids@.len() as int) =~= sub.monitor_ids@);
    if areas.len() == 0 {
        return None;
    }
    proof {
        lemma_bounds_fit(areas@);
    }
    if sub.split == AutoSplit::One {
        return placement::bounding_rect(areas.as_slice());
    }
    let cells = layout_service::auto_split_cells(areas[0], sub.split);
    if sub.cell_index < cells.len() {
        Some(cells[sub.cell_index])
    } else {
        placement::bounding_rect(areas.as_slice())
    }
}

/// The set parks in the named area.
pub open spec fn parks_in(w: Workset, sub_screen_id: Uuid) -> bool {
    w.parking_policy == (ParkingPolicy::SubScreen { sub_screen_id })
}

/// The ids of the sets that park in a named area, in the order of the sets.
pub open spec fn sharers(worksets: Seq<Workset>, sub_screen_id: Uuid) -> Seq<Uuid>
    decreases worksets.len(),
{
    if worksets.len() == 0 {
        Seq::empty()
    } else {
        let before = sharers(worksets.drop_last(), sub_screen_id);
        if parks_in(worksets.last(), sub_screen_id) {
            before.push(worksets.last().id)
        } else {
            before
        }
    }
}

fn collect_sharers(worksets: &[Workset], sub_screen_id: Uuid) -> (r: Vec<Uuid>)
    ensures
        r@ == sharers(worksets@, sub_screen_id),
{
    let mut out: Vec<Uuid> = Vec::new();
    let mut i: usize = 0;
    assert(out@ =~= sharers(worksets@.take(0), sub_screen_id));
    while i < worksets.len()
        invariant
            i <= worksets@.len(),
            out@ == sharers(worksets@.take(i as int), sub_screen_id),
        decreases worksets@.len() - i,
    {
        proof {
            assert(worksets@.take(i + 1).drop_last() =~= worksets@.take(i as int));
        }
        if worksets[i].parking_policy == (ParkingPolicy::SubScreen { sub_screen_id }) {
            out.push(worksets[i].id);
        }
        i += 1;
    }
    assert(worksets@.take(worksets@.len() as int) =~= worksets@);
    out
}

/// How many sets park in a named area.
pub fn sub_screen_sharer_count(worksets: &[Workset], sub_screen_id: Uuid) -> (r: usize)
    ensures
        r == sharers(worksets@, sub_screen_id).len(),
{
    collect_sharers(worksets, sub_screen_id).len()
}

/// Position `i` of the list holds `id`.
pub open spec fn holds(all: Seq<Uuid>, id: Uuid) -> spec_fn(int) -> bool {
    |i: int| all[i] == id
}

pub open spec fn smaller(a: int, b: int) -> int {
    if a <= b {
        a
    } else {
        b
    }
}

/// The cell of a named area that a set parks into.
pub open spec fn slot_rect_of(
    sub: SubScreen,
    worksets: Seq<Workset>,
    workset_id: Uuid,
    live: Seq<MonitorInfo>,
) -> Option<PixelRect> {
    match region_of(sub, live) {
        None => None,
        Some(region) => {
            let all = sharers(worksets, sub.id);
            let cap = parking_cells::capacity_of(region);
            match order::first_where(all.len(), holds(all, workset_id)) {
                None => None,
                Some(i) => if i >= cap {
                    None
                } else {
                    Some(
                        parking_cells::cells_for(
                            region,
                            smaller(all.len() as int, cap as int) as nat,
                        )[i],
                    )
                },
            }
        },
    }
}

/// The cell of a named area that a set parks into: sets that share the area take its cells in
/// the order of the sets. There is none for a set that does not park there, for one beyond the
/// region's capacity, and while the area's monitors are away.
pub fn sub_screen_slot_rect(
    sub: &SubScreen,
    worksets: &[Workset],
    workset_id: Uuid,
    live_monitors: &[MonitorInfo],
) -> (r: Option<PixelRect>)
    requires
        parking_allocator::monitors_fit(live_monitors@),
    ensures
        r == slot_rect_of(*sub, worksets@, workset_id, live_monitors@),
        r matches Some(rect) ==> rect.fits(),
{
    let region = match sub_screen_target_rect(sub, live_monitors) {
        Some(rect) => rect,
        None => {
            return None;
        },
    };
    let all = collect_sharers(worksets, sub.id);
    let ghost pred = holds(all@, workset_id);
    let mut i: usize = 0;
    while i < all.len()
        invariant
            i <= all@.len(),
            pred == holds(all@, workset_id),
            forall|j: int| 0 <= j < i ==> !#[trigger] pred(j),
            all@ == sharers(worksets@, sub.id),
            region_of(*sub, live_monitors@) == Some(region),
            region.fits(),
        decreases all@.len() - i,
    {
        if all[i] == workset_id {
            proof {
                order::lemma_first_where_some(all@.len(), pred, i as int);
            }
            let cap: usize = parking_cells::screen_capacity(region);
            if i >= cap {
                return None;
            }
            let count: usize = if all.len() <= cap {
                all.len()
            } else {
                cap
            };
            let cells = parking_cells::subdivide_for_count(region, count);
            proof {
                parking_cells::lemma_cells_for_len(region, count as nat);
            }
            return Some(cells[i]);
        }
        i += 1;
    }
    proof {
        order::lemma_first_where_none(all@.len(), pred);
    }
    None
}

proof fn lemma_areas_fit(ids: Seq<String>, live: Seq<MonitorInfo>)
    requires
        parking_allocator::monitors_fit(live),
    ensures
        forall|i: int| 0 <= i < areas_of(ids, live).len() ==> (#[trigger] areas_of(ids, live)[i]).fits(),
    decreases ids.len(),
{
    if ids.len() > 0 {
        lemma_areas_fit(ids.drop_last(), live);
        monitor_resolution::lemma_live_monitor(live, ids.last()@);
        if let Some(m) = monitor_resolution::live_monitor(live, ids.last()@) {
            let k = choose|k: int| 0 <= k < live.len() && live[k] == m;
            assert(live[k].work_area_px.fits());
        }
        let before = areas_of(ids.drop_last(), live);
        let all = areas_of(ids, live);
        assert forall|i: int| 0 <= i < all.len() implies (#[trigger] all[i]).fits() by {
            if i < before.len() {
                assert(all[i] == before[i]);
            }
        }
    }
}

/// A named area's region can be cut up.
pub proof fn lemma_region_fits(sub: SubScreen, live: Seq<MonitorInfo>)
    requires
        parking_allocator::monitors_fit(live),
    ensures
        region_of(sub, live) matches Some(region) ==> region.fits(),
{
    let areas = areas_of(sub.monitor_ids@, live);
    lemma_areas_fit(sub.monitor_ids@, live);
    if areas.len() > 0 {
        lemma_bounds_fit(areas);
        assert(areas[0].fits());
    }
}

/// A set that parks in a named area stays within the area's region.
pub proof fn law_cell_lies_in_the_region(
    sub: SubScreen,
    worksets: Seq<Workset>,
    id: Uuid,
    live: Seq<MonitorInfo>,
)
    requires
        parking_allocator::monitors_fit(live),
        slot_rect_of(sub, worksets, id, live) is Some,
    ensures
        region_of(sub, live) is Some,
        parking_allocator::lies_within(
            slot_rect_of(sub, worksets, id, live)->0,
            region_of(sub, live)->0,
        ),
        slot_rect_of(sub, worksets, id, live)->0.fits(),
{
    lemma_region_fits(sub, live);
    let region = region_of(sub, live)->0;
    let all = sharers(worksets, sub.id);
    let cap = parking_cells::capacity_of(region);
    let count = smaller(all.len() as int, cap as int) as nat;
    order::lemma_first_where(all.len(), holds(all, id));
    let i = order::first_where(all.len(), holds(all, id))->0;
    parking_cells::lemma_cells_for_len(region, count);
    parking_cells::lemma_cells_fit(region, count);
    parking_cells::law_cells_tile_the_region(region, count);
    let cells = parking_cells::cells_for(region, count);
    assert(parking_allocator::lies_within(cells[i], region));
}

/// Two sets that share a named area never cover a common pixel.
pub proof fn law_sharers_do_not_overlap(
    sub: SubScreen,
    worksets: Seq<Workset>,
    a: Uuid,
    b: Uuid,
    live: Seq<MonitorInfo>,
    px: int,
    py: int,
)
    requires
        a != b,
        region_of(sub, live) matches Some(region) ==> region.fits(),
        slot_rect_of(sub, worksets, a, live) is Some,
        slot_rect_of(sub, worksets, b, live) is Some,
    ensures
        !(slot_rect_of(sub, worksets, a, live)->0.covers(px, py) && slot_rect_of(
            sub,
            worksets,
            b,
            live,
        )->0.covers(px, py)),
{
    let region = region_of(sub, live)->0;
    let all = sharers(worksets, sub.id);
    let cap = parking_cells::capacity_of(region);
    let count = smaller(all.len() as int, cap as int) as nat;
    let pa = holds(all, a);
    let pb = holds(all, b);
    order::lemma_first_where(all.len(), pa);
    order::lemma_first_where(all.len(), pb);
    let i = order::first_where(all.len(), pa)->0;
    let j = order::first_where(all.len(), pb)->0;
    parking_cells::lemma_cells_for_len(region, count);
    parking_cells::law_cells_tile_the_region(region, count);
    let cells = parking_cells::cells_for(region, count);
    if cells[i].covers(px, py) && cells[j].covers(px, py) {
        if i < j {
            assert(!cells[j].covers(px, py));
        } else {
            assert(!cells[i].covers(px, py));
        }
    }
}

/// A managed window that does not take part in the switch lies on the cell.
pub open spec fn is_stale(
    cell: PixelRect,
    incoming: Set<isize>,
    managed: Seq<(isize, PixelRect)>,
    hwnd: isize,
) -> bool {
    exists|i: int|
        0 <= i < managed.len() && (#[trigger] managed[i]).0 == hwnd && !incoming.contains(hwnd)
            && managed[i].1.meets(cell)
}

/// From the lowest to the highest, none twice.
pub open spec fn strictly_ascending(s: Seq<isize>) -> bool {
    forall|i: int, j: int| 0 <= i < j < s.len() ==> #[trigger] s[i] < #[trigger] s[j]
}

/// `out` lists exactly the stale windows, from the lowest handle to the highest.
pub open spec fn lists_stale(
    out: Seq<isize>,
    cell: PixelRect,
    incoming: Set<isize>,
    managed: Seq<(isize, PixelRect)>,
) -> bool {
    &&& strictly_ascending(out)
    &&& forall|hwnd: isize| #[trigger] out.contains(hwnd) <==> is_stale(cell, incoming, managed, hwnd)
}

/// Puts `v` into an ascending sequence, unless it is there.
fn insert_ascending(out: &mut Vec<isize>, v: isize)
    requires
        strictly_ascending(old(out)@),
    ensures
        strictly_ascending(final(out)@),
        forall|x: isize| #[trigger]
            final(out)@.contains(x) <==> old(out)@.contains(x) || x == v,
{
    let ghost before = out@;
    let mut p: usize = 0;
    while p < out.len() && out[p] < v
        invariant
            p <= out@.len(),
            out@ == before,
            forall|j: int| 0 <= j < p ==> #[trigger] out@[j] < v,
        decreases out@.len() - p,
    {
        p += 1;
    }
    if p < out.len() && out[p] == v {
        assert(before.contains(v));
        return;
    }
    out.insert(p, v);
    proof {
        assert forall|i: int, j: int| 0 <= i < j < out@.len() implies #[trigger] out@[i]
            < #[trigger] out@[j] by {
            let i0 = if i < p {
                i
            } else {
                i - 1
            };
            let j0 = if j < p {
                j
            } else {
                j - 1
            };
            if i == p {
                assert(out@[j] == before[j0]);
                assert(before[p as int] <= before[j0]);
            } else if j == p {
                assert(out@[i] == before[i]);
            } else {
                assert(out@[i] == before[i0] && out@[j] == before[j0]);
            }
        }
        assert forall|x: isize| #[trigger] out@.contains(x) <==> before.contains(x) || x == v by {
            if before.contains(x) {
                let k = choose|k: int| 0 <= k < before.len() && before[k] == x;
                if k < p {
                    assert(out@[k] == x);
                } else {
                    assert(out@[k + 1] == x);
                }
            }
            if x == v {
                assert(out@[p as int] == v);
            }
            if out@.contains(x) {
                let k = choose|k: int| 0 <= k < out@.len() && out@[k] == x;
                if k < p {
                    assert(before[k] == x);
                } else if k > p {
                    assert(before[k - 1] == x);
                }
            }
        }
    }
}

/// The handles of managed windows that lie on `cell` without taking part in the switch. They
/// have to leave before the cell is filled.
pub fn stale_sub_occupants(
    cell: PixelRect,
    incoming: &HashSet<isize>,
    managed: &[(isize, PixelRect)],
) -> (r: Vec<isize>)
    ensures
        lists_stale(r@, cell, incoming@, managed@),
{
    let mut out: Vec<isize> = Vec::new();
    let mut i: usize = 0;
    while i < managed.len()
        invariant
            i <= managed@.len(),
            lists_stale(out@, cell, incoming@, managed@.take(i as int)),
        decreases managed@.len() - i,
    {
        let hwnd: isize = managed[i].0;
        let ghost before = out@;
        let stale = !incoming.contains(&hwnd) && managed[i].1.overlaps(&cell);
        if stale {
            insert_ascending(&mut out, hwnd);
        }
        proof {
            let was = managed@.take(i as int);
            let now = managed@.take(i + 1);
            assert forall|h: isize| #[trigger] out@.contains(h) <==> is_stale(
                cell,
                incoming@,
                now,
                h,
            ) by {
                assert(before.contains(h) <==> is_stale(cell, incoming@, was, h));
                if is_stale(cell, incoming@, was, h) {
                    let k = choose|k: int|
                        0 <= k < was.len() && (#[trigger] was[k]).0 == h && !incoming@.contains(h)
                            && was[k].1.meets(cell);
                    assert(now[k] == was[k]);
                }
                if stale && h == hwnd {
                    assert(now[i as int].0 == h);
                }
                if is_stale(cell, incoming@, now, h) {
                    let k = choose|k: int|
                        0 <= k < now.len() && (#[trigger] now[k]).0 == h && !incoming@.contains(h)
                            && now[k].1.meets(cell);
                    if k < i {
                        assert(was[k] == now[k]);
                    }
                }
            }
        }
        i += 1;
    }
    assert(managed@.take(managed@.len() as int) =~= managed@);
    out
}

/// There is only one such listing.
pub proof fn lemma_stale_unique(
    a: Seq<isize>,
    b: Seq<isize>,
    cell: PixelRect,
    incoming: Set<isize>,
    managed: Seq<(isize, PixelRect)>,
)
    requires
        lists_stale(a, cell, incoming, managed),
        lists_stale(b, cell, incoming, managed),
    ensures
        a == b,
{
    assert forall|x: isize| #[trigger] a.contains(x) <==> b.contains(x) by {
        assert(a.contains(x) <==> is_stale(cell, incoming, managed, x));
        assert(b.contains(x) <==> is_stale(cell, incoming, managed, x));
    }
    lemma_ascending_unique(a, b);
}

proof fn lemma_ascending_unique(a: Seq<isize>, b: Seq<isize>)
    requires
        strictly_ascending(a),
        strictly_ascending(b),
        forall|x: isize| #[trigger] a.contains(x) <==> b.contains(x),
    ensures
        a == b,
    decreases a.len(),
{
    if a.len() == 0 {
        if b.len() > 0 {
            assert(b.contains(b[0]));
            assert(a.contains(b[0]));
        }
        assert(a =~= b);
    } else {
        assert(a.contains(a.last()));
        assert(b.contains(a.last()));
        let p = choose|p: int| 0 <= p < b.len() && b[p] == a.last();
        assert(b.contains(b.last()));
        assert(a.contains(b.last()));
        let q = choose|q: int| 0 <= q < a.len() && a[q] == b.last();
        if a.last() != b.last() {
            if p < b.len() - 1 {
                assert(b[p] < b[b.len() - 1]);
            }
            if q < a.len() - 1 {
                assert(a[q] < a[a.len() - 1]);
            }
            assert(false);
        }
        let a1 = a.drop_last();
        let b1 = b.drop_last();
        assert forall|x: isize| #[trigger] a1.contains(x) <==> b1.contains(x) by {
            if a1.contains(x) {
                let k = choose|k: int| 0 <= k < a1.len() && a1[k] == x;
                assert(a[k] < a[a.len() - 1]);
                assert(a.contains(x));
                let l = choose|l: int| 0 <= l < b.len() && b[l] == x;
                assert(l < b.len() - 1);
                assert(b1[l] == x);
            }
            if b1.contains(x) {
                let k = choose|k: int| 0 <= k < b1.len() && b1[k] == x;
                assert(b[k] < b[b.len() - 1]);
                assert(b.contains(x));
                assert(a.contains(x));
                let l = choose|l: int| 0 <= l < a.len() && a[l] == x;
                assert(l < a.len() - 1);
                assert(a1[l] == x);
            }
        }
        lemma_ascending_unique(a1, b1);
        assert(a =~= a1.push(a.last()));
        assert(b =~= b1.push(b.last()));
    }
}

// ---------------------------------------------------------------------------
// What a named area is
// ---------------------------------------------------------------------------

/// The areas of the named monitors are those of the connected ones, in the order named.
pub proof fn law_area_is_made_of_connected_monitors(ids: Seq<String>, live: Seq<MonitorInfo>)
    ensures
        ({
            let areas = areas_of(ids, live);
            &&& areas.len() == 0 <==> (forall|i: int|
                0 <= i < ids.len() ==> monitor_resolution::live_monitor(
                    live,
                    (#[trigger] ids[i])@,
                ) is None)
            &&& forall|k: int|
                0 <= k < areas.len() ==> exists|i: int|
                    0 <= i < ids.len() && (monitor_resolution::live_monitor(
                        live,
                        (#[trigger] ids[i])@,
                    ) matches Some(m) && m.work_area_px == #[trigger] areas[k])
            &&& forall|i: int|
                0 <= i < ids.len() && (monitor_resolution::live_monitor(
                    live,
                    (#[trigger] ids[i])@,
                ) is Some) ==> areas.contains(
                    monitor_resolution::live_monitor(live, ids[i]@)->0.work_area_px,
                )
        }),
    decreases ids.len(),
{
    let areas = areas_of(ids, live);
    if ids.len() > 0 {
        let rest = ids.drop_last();
        law_area_is_made_of_connected_monitors(rest, live);
        let before = areas_of(rest, live);
        let n = ids.len() - 1;
        assert(ids[n] == ids.last());
        assert forall|k: int| 0 <= k < areas.len() implies exists|i: int|
            0 <= i < ids.len() && (monitor_resolution::live_monitor(
                live,
                (#[trigger] ids[i])@,
            ) matches Some(m) && m.work_area_px == #[trigger] areas[k]) by {
            if k < before.len() {
                let i = choose|i: int|
                    0 <= i < rest.len() && (monitor_resolution::live_monitor(
                        live,
                        (#[trigger] rest[i])@,
                    ) matches Some(m) && m.work_area_px == before[k]);
                assert(ids[i] == rest[i] && areas[k] == before[k]);
            } else {
                assert(monitor_resolution::live_monitor(live, ids[n]@) is Some);
            }
        }
        assert forall|i: int|
            0 <= i < ids.len() && (monitor_resolution::live_monitor(
                live,
                (#[trigger] ids[i])@,
            ) is Some) implies areas.contains(
            monitor_resolution::live_monitor(live, ids[i]@)->0.work_area_px,
        ) by {
            if i < n {
                assert(rest[i] == ids[i]);
                let area = monitor_resolution::live_monitor(live, rest[i]@)->0.work_area_px;
                let k = choose|k: int| 0 <= k < before.len() && before[k] == area;
                assert(areas[k] == area);
            } else {
                assert(areas[areas.len() - 1]
                    == monitor_resolution::live_monitor(live, ids[n]@)->0.work_area_px);
            }
        }
        if areas.len() == 0 {
            assert forall|i: int| 0 <= i < ids.len() implies monitor_resolution::live_monitor(
                live,
                (#[trigger] ids[i])@,
            ) is None by {
                if i < n {
                    assert(rest[i] == ids[i]);
                }
            }
        } else if forall|i: int|
            0 <= i < ids.len() ==> monitor_resolution::live_monitor(
                live,
                (#[trigger] ids[i])@,
            ) is None {
            assert(monitor_resolution::live_monitor(live, ids[n]@) is None);
            assert forall|i: int| 0 <= i < rest.len() implies monitor_resolution::live_monitor(
                live,
                (#[trigger] rest[i])@,
            ) is None by {
                assert(rest[i] == ids[i]);
            }
        }
    }
}

/// A named area has a region as long as one of its monitors is connected. An area that is not split
/// spans all its connected monitors; one that is split is the chosen cell of the first of them.
pub proof fn law_region_follows_its_monitors(sub: SubScreen, live: Seq<MonitorInfo>)
    ensures
        region_of(sub, live) is None <==> (forall|i: int|
            0 <= i < sub.monitor_ids@.len() ==> monitor_resolution::live_monitor(
                live,
                (#[trigger] sub.monitor_ids@[i])@,
            ) is None),
        sub.split == AutoSplit::One && region_of(sub, live) is Some ==> region_of(sub, live)
            == placement::bounds_of(areas_of(sub.monitor_ids@, live)),
        sub.split == AutoSplit::TwoColumns && sub.cell_index < 2 && region_of(sub, live) is Some
            ==> region_of(sub, live) == Some(
            layout_service::split_cells(
                areas_of(sub.monitor_ids@, live)[0],
                sub.split,
            )[sub.cell_index as int],
        ),
        sub.split == AutoSplit::FourGrid && sub.cell_index < 4 && region_of(sub, live) is Some
            ==> region_of(sub, live) == Some(
            layout_service::split_cells(
                areas_of(sub.monitor_ids@, live)[0],
                sub.split,
            )[sub.cell_index as int],
        ),
{
    law_area_is_made_of_connected_monitors(sub.monitor_ids@, live);
}

/// The sets that share an area are exactly those that name it.
pub proof fn law_sharers_are_those_that_name_the_area(
    worksets: Seq<Workset>,
    sub_screen_id: Uuid,
    id: Uuid,
)
    ensures
        sharers(worksets, sub_screen_id).contains(id) <==> exists|i: int|
            0 <= i < worksets.len() && (#[trigger] worksets[i]).id == id
                && worksets[i].parking_policy == (ParkingPolicy::SubScreen { sub_screen_id }),
        sharers(worksets, sub_screen_id).len() <= worksets.len(),
    decreases worksets.len(),
{
    let all = sharers(worksets, sub_screen_id);
    if worksets.len() > 0 {
        let rest = worksets.drop_last();
        law_sharers_are_those_that_name_the_area(rest, sub_screen_id, id);
        let before = sharers(rest, sub_screen_id);
        let n = worksets.len() - 1;
        assert(worksets[n] == worksets.last());
        if all.contains(id) {
            let k = choose|k: int| 0 <= k < all.len() && all[k] == id;
            if k < before.len() {
                assert(before[k] == id);
                let i = choose|i: int|
                    0 <= i < rest.len() && (#[trigger] rest[i]).id == id && rest[i].parking_policy
                        == (ParkingPolicy::SubScreen { sub_screen_id });
                assert(worksets[i] == rest[i]);
            }
        }
        if exists|i: int|
            0 <= i < worksets.len() && (#[trigger] worksets[i]).id == id
                && worksets[i].parking_policy == (ParkingPolicy::SubScreen { sub_screen_id }) {
            let i = choose|i: int|
                0 <= i < worksets.len() && (#[trigger] worksets[i]).id == id
                    && worksets[i].parking_policy == (ParkingPolicy::SubScreen { sub_screen_id });
            if i < n {
                assert(rest[i] == worksets[i]);
                let k = choose|k: int| 0 <= k < before.len() && before[k] == id;
                assert(all[k] == id);
            } else {
                assert(all[before.len() as int] == id);
            }
        }
    }
}

/// A set that does not name an area has no cell of it.
pub proof fn law_strangers_have_no_cell(
    sub: SubScreen,
    worksets: Seq<Workset>,
    id: Uuid,
    live: Seq<MonitorInfo>,
)
    requires
        forall|i: int|
            0 <= i < worksets.len() && (#[trigger] worksets[i]).id == id
                ==> worksets[i].parking_policy != (ParkingPolicy::SubScreen {
                sub_screen_id: sub.id,
            }),
    ensures
        slot_rect_of(sub, worksets, id, live) is None,
{
    law_sharers_are_those_that_name_the_area(worksets, sub.id, id);
    let all = sharers(worksets, sub.id);
    let test = holds(all, id);
    assert forall|i: int| 0 <= i < all.len() implies !#[trigger] test(i) by {
        assert(all.contains(all[i]));
    }
    order::lemma_first_where_none(all.len(), test);
}

/// Up to four sets that share an area whose monitors are connected all have a cell of it, and a
/// set that has the area to itself has all of it.
pub proof fn law_few_sharers_all_have_a_cell(
    sub: SubScreen,
    worksets: Seq<Workset>,
    i: int,
    live: Seq<MonitorInfo>,
)
    requires
        0 <= i < worksets.len(),
        worksets[i].parking_policy == (ParkingPolicy::SubScreen { sub_screen_id: sub.id }),
        region_of(sub, live) is Some,
    ensures
        sharers(worksets, sub.id).len() <= 4 ==> slot_rect_of(
            sub,
            worksets,
            worksets[i].id,
            live,
        ) is Some,
        (forall|j: int|
            0 <= j < worksets.len() && j != i ==> (#[trigger] worksets[j]).parking_policy != (
            ParkingPolicy::SubScreen { sub_screen_id: sub.id })) ==> slot_rect_of(
            sub,
            worksets,
            worksets[i].id,
            live,
        ) == region_of(sub, live),
{
    let id = worksets[i].id;
    let all = sharers(worksets, sub.id);
    law_sharers_are_those_that_name_the_area(worksets, sub.id, id);
    let test = holds(all, id);
    let k = choose|k: int| 0 <= k < all.len() && all[k] == id;
    assert(test(k));
    order::lemma_first_where(all.len(), test);
    if forall|j: int|
        0 <= j < worksets.len() && j != i ==> (#[trigger] worksets[j]).parking_policy != (
        ParkingPolicy::SubScreen { sub_screen_id: sub.id }) {
        lemma_sole_sharer(worksets, sub.id, i);
    }
}

proof fn lemma_sole_sharer(worksets: Seq<Workset>, sub_screen_id: Uuid, i: int)
    requires
        forall|j: int|
            0 <= j < worksets.len() && j != i ==> (#[trigger] worksets[j]).parking_policy != (
            ParkingPolicy::SubScreen { sub_screen_id }),
    ensures
        sharers(worksets, sub_screen_id).len() <= if 0 <= i < worksets.len() {
            1nat
        } else {
            0nat
        },
    decreases worksets.len(),
{
    if worksets.len() > 0 {
        let rest = worksets.drop_last();
        assert forall|j: int| 0 <= j < rest.len() && j != i implies (
        #[trigger] rest[j]).parking_policy != (ParkingPolicy::SubScreen { sub_screen_id }) by {
            assert(rest[j] == worksets[j]);
        }
        lemma_sole_sharer(rest, sub_screen_id, i);
        let n = worksets.len() - 1;
        if n != i {
            assert(worksets[n].parking_policy != (ParkingPolicy::SubScreen { sub_screen_id }));
        }
    }
}

/// Windows that have to leave can be listed.
pub proof fn lemma_stale_listed(
    cell: PixelRect,
    incoming: Set<isize>,
    managed: Seq<(isize, PixelRect)>,
) -> (s: Seq<isize>)
    ensures
        lists_stale(s, cell, incoming, managed),
    decreases managed.len(),
{
    if managed.len() == 0 {
        Seq::empty()
    } else {
        let rest = managed.drop_last();
        let before = lemma_stale_listed(cell, incoming, rest);
        let (h, rect) = managed.last();
        let fresh = !incoming.contains(h) && rect.meets(cell);
        let now = if fresh {
            lemma_inserted(before, h)
        } else {
            before
        };
        let n = managed.len() - 1;
        assert forall|x: isize| #[trigger] now.contains(x) <==> is_stale(
            cell,
            incoming,
            managed,
            x,
        ) by {
            assert(before.contains(x) <==> is_stale(cell, incoming, rest, x));
            if is_stale(cell, incoming, rest, x) {
                let k = choose|k: int|
                    0 <= k < rest.len() && (#[trigger] rest[k]).0 == x && !incoming.contains(x)
                        && rest[k].1.meets(cell);
                assert(managed[k] == rest[k]);
            }
            if fresh && x == h {
                assert(managed[n].0 == x);
            }
            if is_stale(cell, incoming, managed, x) {
                let k = choose|k: int|
                    0 <= k < managed.len() && (#[trigger] managed[k]).0 == x && !incoming.contains(
                        x,
                    ) && managed[k].1.meets(cell);
                if k < n {
                    assert(rest[k] == managed[k]);
                }
            }
        }
        now
    }
}

proof fn lemma_inserted(s: Seq<isize>, v: isize) -> (r: Seq<isize>)
    requires
        strictly_ascending(s),
    ensures
        strictly_ascending(r),
        forall|x: isize| #[trigger] r.contains(x) <==> s.contains(x) || x == v,
    decreases s.len(),
{
    if s.len() == 0 {
        let r = seq![v];
        assert forall|x: isize| #[trigger] r.contains(x) <==> s.contains(x) || x == v by {
            if x == v {
                assert(r[0] == x);
            }
        }
        r
    } else if s.last() < v {
        let r = s.push(v);
        assert forall|x: isize| #[trigger] r.contains(x) <==> s.contains(x) || x == v by {
            if s.contains(x) {
                let k = choose|k: int| 0 <= k < s.len() && s[k] == x;
                assert(r[k] == x);
            }
            if x == v {
                assert(r[s.len() as int] == x);
            }
        }
        assert forall|i: int, j: int| 0 <= i < j < r.len() implies #[trigger] r[i]
            < #[trigger] r[j] by {
            if i < s.len() - 1 {
                assert(s[i] < s[s.len() - 1]);
            }
        }
        r
    } else if s.last() == v {
        assert forall|x: isize| x == v implies #[trigger] s.contains(x) by {
            assert(s[s.len() - 1] == x);
        }
        s
    } else {
        let rest = s.drop_last();
        let before = lemma_inserted(rest, v);
        let r = before.push(s.last());
        assert forall|x: isize| #[trigger] before.contains(x) implies x < s.last() by {
            if rest.contains(x) {
                let k = choose|k: int| 0 <= k < rest.len() && rest[k] == x;
                assert(s[k] < s[s.len() - 1]);
            }
        }
        assert forall|x: isize| #[trigger] r.contains(x) <==> s.contains(x) || x == v by {
            if r.contains(x) {
                let k = choose|k: int| 0 <= k < r.len() && r[k] == x;
                if k < before.len() {
                    assert(before[k] == x);
                    assert(before.contains(x));
                    if rest.contains(x) {
                        let l = choose|l: int| 0 <= l < rest.len() && rest[l] == x;
                        assert(s[l] == x);
                    }
                } else {
                    assert(s[s.len() - 1] == x);
                }
            }
            if s.contains(x) || x == v {
                if x == s.last() {
                    assert(r[before.len() as int] == x);
                } else {
                    if s.contains(x) {
                        let l = choose|l: int| 0 <= l < s.len() && s[l] == x;
                        assert(rest[l] == x);
                    }
                    assert(before.contains(x));
                    let k = choose|k: int| 0 <= k < before.len() && before[k] == x;
                    assert(r[k] == x);
                }
            }
        }
        assert forall|i: int, j: int| 0 <= i < j < r.len() implies #[trigger] r[i]
            < #[trigger] r[j] by {
            if j == before.len() {
                assert(before.contains(before[i]));
            }
        }
        r
    }
}

} // verus!
