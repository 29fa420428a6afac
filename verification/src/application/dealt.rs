//! Who is dealt which cell: what holds of an allocation, told by what goes into it.

use vstd::prelude::*;

use crate::application::layout_service;
use crate::application::monitor_resolution;
use crate::application::parking_allocator;
use crate::application::parking_allocator::{AllocationView, AssignmentView, SlotView};
use crate::application::parking_cells;
use crate::domain::monitor::{AutoSplit, MonitorInfo, SavedMonitor};
use crate::domain::placement::PixelRect;
use crate::domain::workset::{ParkingPolicy, Workset};
use crate::ids::Uuid;
use crate::order;

verus! {

/// The monitor is free for sets that are parked as room allows: the user has not excluded it, and
/// it is kept neither as a main monitor, nor for a named parking area, nor for a fixed slot.
pub open spec fn is_free(input: AllocationView, name: Seq<char>) -> bool {
    &&& forall|i: int|
        0 <= i < input.saved_monitors.len() && (#[trigger] input.saved_monitors[i]).stable_id@
            == name ==> !input.saved_monitors[i].excluded
    &&& forall|i: int|
        0 <= i < input.main_monitor_ids.len() ==> (#[trigger] input.main_monitor_ids[i])@ != name
    &&& forall|i: int|
        0 <= i < input.sub_screen_monitor_ids.len() ==> #[trigger] input.sub_screen_monitor_ids[i]
            != name
    &&& forall|i: int|
        0 <= i < input.fixed_slots.len() ==> (#[trigger] input.fixed_slots[i]).monitor_id@ != name
}

/// The input is as large as a machine can hold.
pub open spec fn holds_in_memory(input: AllocationView) -> bool {
    input.worksets.len() <= usize::MAX && input.live_monitors.len() <= usize::MAX
}

/// Ids and names name one thing each.
pub open spec fn all_distinct(input: AllocationView) -> bool {
    parking_allocator::distinct_sets(input.worksets) && parking_allocator::distinct_names(
        input.live_monitors,
    )
}

proof fn lemma_target_is_free(input: AllocationView, m: MonitorInfo)
    ensures
        parking_allocator::is_auto_target(input, m) <==> is_free(input, m.device_name@),
{
    let name = m.device_name@;
    if is_free(input, name) {
        assert(!input.sub_screen_monitor_ids.contains(name));
    }
    if parking_allocator::is_auto_target(input, m) {
        assert forall|i: int| 0 <= i < input.sub_screen_monitor_ids.len() implies
            #[trigger] input.sub_screen_monitor_ids[i] != name by {
            assert(input.sub_screen_monitor_ids.contains(input.sub_screen_monitor_ids[i]));
        }
        assert forall|i: int|
            0 <= i < input.saved_monitors.len() && (#[trigger] input.saved_monitors[i]).stable_id@
                == name implies !input.saved_monitors[i].excluded by {}
    }
}

/// Everything that the allocation goes by.
pub struct Dealing {
    pub pool: Seq<Uuid>,
    pub monitors: Seq<MonitorInfo>,
    pub held: Seq<Seq<Uuid>>,
}

/// The sets on the monitors, and how the allocation follows from them.
proof fn lemma_dealing(input: AllocationView) -> (d: Dealing)
    requires
        holds_in_memory(input),
    ensures
        parking_allocator::is_pool(input, d.pool),
        monitor_resolution::in_reading_order(
            d.monitors,
            parking_allocator::auto_targets(input),
        ),
        parking_allocator::allocation(input) == (
            parking_allocator::all_places(input, d.pool, d.monitors),
            parking_allocator::held_slots(d.monitors, d.held),
        ),
        d.held == parking_allocator::occupancy(
            input.saved_monitors,
            d.monitors,
            input.previous,
            d.pool,
        ),
        d.held.len() == d.monitors.len(),
        parking_allocator::within_capacity(input.saved_monitors, d.monitors, d.held),
        parking_allocator::only_pool(d.held, d.pool),
        forall|i: int|
            0 <= i < d.monitors.len() ==> is_free(input, (#[trigger] d.monitors[i]).device_name@)
                && input.live_monitors.contains(d.monitors[i]),
        all_distinct(input) ==> d.pool.no_duplicates() && parking_allocator::apart(d.held)
            && parking_allocator::distinct_names(d.monitors),
{
    let (pool, monitors) = parking_allocator::lemma_allocation_parts(input);
    let saved = input.saved_monitors;
    let held = parking_allocator::occupancy(saved, monitors, input.previous, pool);
    parking_allocator::lemma_occupancy(saved, monitors, input.previous, pool);
    parking_allocator::lemma_targets_in_order(input, monitors);
    assert forall|i: int| 0 <= i < monitors.len() implies is_free(
        input,
        (#[trigger] monitors[i]).device_name@,
    ) && input.live_monitors.contains(monitors[i]) by {
        lemma_target_is_free(input, monitors[i]);
    }
    if all_distinct(input) {
        parking_allocator::lemma_pool_distinct(input, pool);
        parking_allocator::lemma_occupancy_apart(saved, monitors, input.previous, pool);
    }
    Dealing { pool, monitors, held }
}

/// Whoever has an automatic place holds a cell of one of the monitors.
proof fn lemma_automatic(input: AllocationView, d: Dealing, id: Uuid) -> (r: (int, int))
    requires
        holds_in_memory(input),
        parking_allocator::is_pool(input, d.pool),
        d.held == parking_allocator::occupancy(
            input.saved_monitors,
            d.monitors,
            input.previous,
            d.pool,
        ),
        d.held.len() == d.monitors.len(),
        parking_allocator::all_places(input, d.pool, d.monitors).contains_key(id),
        parking_allocator::all_places(input, d.pool, d.monitors)[id] is Auto,
    ensures
        parking_allocator::holds_cell(
            d.monitors,
            d.held,
            id,
            parking_allocator::all_places(input, d.pool, d.monitors)[id],
            r.0,
            r.1,
        ),
{
    let places = parking_allocator::all_places(input, d.pool, d.monitors);
    let fixed = parking_allocator::fixed_places(input, input.worksets.len());
    let base = parking_allocator::auto_places(fixed, d.monitors, d.held, d.monitors.len());
    parking_allocator::lemma_overflow_places(base, d.held, d.pool, d.pool.len(), id);
    parking_allocator::lemma_auto_places(fixed, d.monitors, d.held, d.monitors.len(), id);
    if fixed.contains_key(id) && base[id] == fixed[id] {
        parking_allocator::lemma_fixed_places(input, input.worksets.len(), id);
    }
    let (i, k) = choose|i: int, k: int|
        i < d.monitors.len() && #[trigger] parking_allocator::holds_cell(
            d.monitors,
            d.held,
            id,
            base[id],
            i,
            k,
        );
    (i, k)
}

/// A set that is parked as room allows is parked on a connected monitor that the user has not
/// excluded, and that is neither a main monitor, nor in a named parking area, nor the monitor of a
/// fixed slot; and its cell lies wholly in the work area of that monitor.
pub proof fn law_automatic_places_keep_off_reserved_monitors(input: AllocationView, id: Uuid)
    requires
        holds_in_memory(input),
        parking_allocator::monitors_fit(input.live_monitors),
        parking_allocator::allocation(input).0.contains_key(id),
        parking_allocator::allocation(input).0[id] is Auto,
    ensures
        ({
            let slot = parking_allocator::allocation(input).0[id]->Auto_0;
            let cell = parking_allocator::allocation(input).0[id]->Auto_1;
            &&& forall|i: int|
                0 <= i < input.saved_monitors.len() && input.saved_monitors[i].excluded ==> (
                #[trigger] input.saved_monitors[i]).stable_id@ != slot.monitor
            &&& forall|i: int|
                0 <= i < input.main_monitor_ids.len() ==> (#[trigger] input.main_monitor_ids[i])@
                    != slot.monitor
            &&& forall|i: int|
                0 <= i < input.sub_screen_monitor_ids.len()
                    ==> #[trigger] input.sub_screen_monitor_ids[i] != slot.monitor
            &&& forall|i: int|
                0 <= i < input.fixed_slots.len() ==> (#[trigger] input.fixed_slots[i]).monitor_id@
                    != slot.monitor
            &&& exists|m: int|
                0 <= m < input.live_monitors.len() && (
                #[trigger] input.live_monitors[m]).device_name@ == slot.monitor
                    && parking_allocator::lies_within(cell, input.live_monitors[m].work_area_px)
        }),
{
    let d = lemma_dealing(input);
    let (i, k) = lemma_automatic(input, d, id);
    let m = d.monitors[i];
    assert(is_free(input, m.device_name@));
    let at = choose|at: int| 0 <= at < input.live_monitors.len() && input.live_monitors[at] == m;
    assert(input.live_monitors[at].work_area_px.fits());
    let n = d.held[i].len();
    parking_allocator::lemma_capacity_bound(input.saved_monitors, m);
    parking_cells::lemma_cells_for_len(m.work_area_px, n);
    parking_cells::law_cells_tile_the_region(m.work_area_px, n);
    let cells = parking_cells::cells_for(m.work_area_px, n);
    assert(parking_allocator::lies_within(cells[k], m.work_area_px));
    assert(input.live_monitors[at].device_name@ == m.device_name@);
}

/// The slots that are kept for the next time are those of the sets that are parked as room allows.
pub proof fn law_kept_slots_are_the_automatic_ones(input: AllocationView, id: Uuid)
    requires
        holds_in_memory(input),
        all_distinct(input),
    ensures
        parking_allocator::allocation(input).1.contains_key(id) <==> (
        parking_allocator::allocation(input).0.contains_key(id) && parking_allocator::allocation(
            input,
        ).0[id] is Auto),
        parking_allocator::allocation(input).1.contains_key(id) ==> parking_allocator::allocation(
            input,
        ).0[id]->Auto_0 == parking_allocator::allocation(input).1[id],
{
    let d = lemma_dealing(input);
    let (places, slots) = parking_allocator::allocation(input);
    if places.contains_key(id) && places[id] is Auto {
        let (i, k) = lemma_automatic(input, d, id);
        parking_allocator::lemma_held_slot(d.monitors, d.held, i, k);
    }
    if slots.contains_key(id) {
        let (i, k) = parking_allocator::lemma_slot_is_held(d.monitors, d.held, id);
        lemma_held_has_place(input, d, i, k);
    }
}

/// Whoever holds a cell has that cell as its place.
proof fn lemma_held_has_place(input: AllocationView, d: Dealing, i: int, k: int)
    requires
        holds_in_memory(input),
        all_distinct(input),
        parking_allocator::is_pool(input, d.pool),
        d.held == parking_allocator::occupancy(
            input.saved_monitors,
            d.monitors,
            input.previous,
            d.pool,
        ),
        d.held.len() == d.monitors.len(),
        parking_allocator::apart(d.held),
        parking_allocator::only_pool(d.held, d.pool),
        0 <= i < d.held.len(),
        0 <= k < d.held[i].len(),
    ensures
        ({
            let places = parking_allocator::all_places(input, d.pool, d.monitors);
            let id = d.held[i][k];
            &&& places.contains_key(id)
            &&& places[id] == parking_allocator::auto_place(d.monitors[i], d.held[i], k)
        }),
{
    let id = d.held[i][k];
    let fixed = parking_allocator::fixed_places(input, input.worksets.len());
    let base = parking_allocator::auto_places(fixed, d.monitors, d.held, d.monitors.len());
    parking_allocator::lemma_auto_places_has(fixed, d.monitors, d.held, d.monitors.len());
    assert(base.contains_key(d.held[i][k]));
    assert(d.held[i].contains(id));
    assert(parking_allocator::is_held(d.held, id));
    parking_allocator::lemma_overflow_places(base, d.held, d.pool, d.pool.len(), id);
    parking_allocator::lemma_auto_places(fixed, d.monitors, d.held, d.monitors.len(), id);
    parking_allocator::lemma_pool(input, d.pool);
    assert(d.pool.contains(d.held[i][k]));
    let a = choose|a: int| 0 <= a < d.pool.len() && d.pool[a] == id;
    assert(parking_allocator::is_member_id(input, d.pool[a]));
    lemma_not_both(input, id);
    let (x, y) = choose|x: int, y: int|
        x < d.monitors.len() && #[trigger] parking_allocator::holds_cell(
            d.monitors,
            d.held,
            id,
            base[id],
            x,
            y,
        );
    assert(d.held[i][k] == d.held[x][y]);
}

/// The set with a designated place is registered, designated to a slot, and not current.
proof fn lemma_fixed_origin(input: AllocationView, n: nat, id: Uuid) -> (j: int)
    requires
        n <= input.worksets.len(),
        parking_allocator::fixed_places(input, n).contains_key(id),
    ensures
        0 <= j < n,
        input.worksets[j].id == id,
        Some(id) != input.current,
        parking_allocator::fixed_slot_of(input, input.worksets[j]) is Some,
    decreases n,
{
    let w = input.worksets[n - 1];
    if parking_allocator::fixed_slot_of(input, w) is Some && parking_allocator::not_current(
        input,
        w,
    ) && w.id == id {
        n - 1
    } else {
        lemma_fixed_origin(input, (n - 1) as nat, id)
    }
}

proof fn lemma_same_set(input: AllocationView, i: int, j: int)
    requires
        parking_allocator::distinct_sets(input.worksets),
        0 <= i < input.worksets.len(),
        0 <= j < input.worksets.len(),
        input.worksets[i].id == input.worksets[j].id,
    ensures
        i == j,
{
    if i < j {
        assert(input.worksets[i].id != input.worksets[j].id);
    } else if j < i {
        assert(input.worksets[j].id != input.worksets[i].id);
    }
}

/// No set is both designated and dealt out.
proof fn lemma_not_both(input: AllocationView, id: Uuid)
    requires
        parking_allocator::distinct_sets(input.worksets),
        parking_allocator::is_member_id(input, id),
    ensures
        !parking_allocator::fixed_places(input, input.worksets.len()).contains_key(id),
{
    if parking_allocator::fixed_places(input, input.worksets.len()).contains_key(id) {
        let i = lemma_fixed_origin(input, input.worksets.len(), id);
        let j = choose|j: int|
            0 <= j < input.worksets.len() && (#[trigger] input.worksets[j]).id == id
                && parking_allocator::is_auto_parked(input, input.worksets[j]);
        lemma_same_set(input, i, j);
    }
}

/// Who is parked at all: every set but the current one that is parked as room allows and has live
/// windows, and every set but the current one that is designated to a slot which there is. The
/// former are dealt a cell or minimized, the latter go to their own cell or are minimized.
pub proof fn law_who_is_parked(input: AllocationView, i: int)
    requires
        holds_in_memory(input),
        all_distinct(input),
        0 <= i < input.worksets.len(),
    ensures
        ({
            let w = input.worksets[i];
            let places = parking_allocator::allocation(input).0;
            let designated = |s: int|
                0 <= s < input.fixed_slots.len() && w.parking_policy == (ParkingPolicy::Fixed {
                    slot_id: input.fixed_slots[s].id,
                });
            &&& input.current == Some(w.id) ==> !places.contains_key(w.id)
            &&& input.current != Some(w.id) && w.parking_policy == ParkingPolicy::Auto ==> (
            places.contains_key(w.id) <==> input.with_windows.contains(w.id))
            &&& w.parking_policy == ParkingPolicy::Auto && places.contains_key(w.id)
                ==> !(places[w.id] is Fixed)
            &&& input.current != Some(w.id) && w.parking_policy is Fixed ==> (places.contains_key(
                w.id,
            ) <==> exists|s: int| #[trigger] designated(s))
            &&& w.parking_policy is Fixed && places.contains_key(w.id) ==> !(places[w.id] is Auto)
            &&& w.parking_policy is SubScreen ==> !places.contains_key(w.id)
        }),
        forall|id: Uuid| #[trigger]
            parking_allocator::allocation(input).0.contains_key(id) ==> exists|j: int|
                0 <= j < input.worksets.len() && (#[trigger] input.worksets[j]).id == id,
{
    let d = lemma_dealing(input);
    let w = input.worksets[i];
    let places = parking_allocator::allocation(input).0;
    let fixed = parking_allocator::fixed_places(input, input.worksets.len());
    parking_allocator::lemma_pool(input, d.pool);
    if places.contains_key(w.id) {
        lemma_parked_origin(input, d, w.id);
        if parking_allocator::is_member_id(input, w.id) {
            let j = choose|j: int|
                0 <= j < input.worksets.len() && (#[trigger] input.worksets[j]).id == w.id
                    && parking_allocator::is_auto_parked(input, input.worksets[j]);
            lemma_same_set(input, i, j);
        }
        if fixed.contains_key(w.id) {
            let j = lemma_fixed_origin(input, input.worksets.len(), w.id);
            lemma_same_set(input, i, j);
        }
        parking_allocator::law_current_set_is_not_parked(input, d.pool, d.monitors, w.id);
    }
    if parking_allocator::is_auto_parked(input, w) {
        parking_allocator::law_every_pooled_set_has_a_place(input, d.pool, d.monitors, i);
    }
    if let ParkingPolicy::Fixed { slot_id } = w.parking_policy {
        let slots = input.fixed_slots;
        let test = |s: int| slots[s].id == slot_id;
        let designated = |s: int|
            0 <= s < input.fixed_slots.len() && w.parking_policy == (ParkingPolicy::Fixed {
                slot_id: input.fixed_slots[s].id,
            });
        order::lemma_first_where(slots.len(), test);
        match order::first_where(slots.len(), test) {
            Some(s) => {
                assert(test(s));
                assert(designated(s));
                if input.current != Some(w.id) {
                    parking_allocator::law_designated_set_keeps_its_cell(input, i);
                }
            },
            None => {
                assert forall|s: int| !#[trigger] designated(s) by {
                    if 0 <= s < slots.len() {
                        assert(!test(s));
                    }
                }
            },
        }
    }
    assert forall|id: Uuid| #[trigger] places.contains_key(id) implies exists|j: int|
        0 <= j < input.worksets.len() && (#[trigger] input.worksets[j]).id == id by {
        lemma_parked_origin(input, d, id);
        if fixed.contains_key(id) {
            let j = lemma_fixed_origin(input, input.worksets.len(), id);
            assert(input.worksets[j].id == id);
        }
    }
}

proof fn lemma_parked_origin(input: AllocationView, d: Dealing, id: Uuid)
    requires
        holds_in_memory(input),
        parking_allocator::is_pool(input, d.pool),
        d.held == parking_allocator::occupancy(
            input.saved_monitors,
            d.monitors,
            input.previous,
            d.pool,
        ),
        d.held.len() == d.monitors.len(),
        parking_allocator::only_pool(d.held, d.pool),
        parking_allocator::all_places(input, d.pool, d.monitors).contains_key(id),
    ensures
        parking_allocator::fixed_places(input, input.worksets.len()).contains_key(id)
            || parking_allocator::is_member_id(input, id),
        parking_allocator::all_places(input, d.pool, d.monitors)[id] is Fixed
            ==> parking_allocator::fixed_places(input, input.worksets.len()).contains_key(id),
        parking_allocator::all_places(input, d.pool, d.monitors)[id] is Auto
            ==> parking_allocator::is_member_id(input, id),
{
    let fixed = parking_allocator::fixed_places(input, input.worksets.len());
    let base = parking_allocator::auto_places(fixed, d.monitors, d.held, d.monitors.len());
    parking_allocator::lemma_overflow_places(base, d.held, d.pool, d.pool.len(), id);
    parking_allocator::lemma_pool(input, d.pool);
    if d.pool.contains(id) {
        let a = choose|a: int| 0 <= a < d.pool.len() && d.pool[a] == id;
        assert(parking_allocator::is_member_id(input, d.pool[a]));
    }
    if base.contains_key(id) {
        parking_allocator::lemma_auto_places(fixed, d.monitors, d.held, d.monitors.len(), id);
        if fixed.contains_key(id) && base[id] == fixed[id] {
            parking_allocator::lemma_fixed_places(input, input.worksets.len(), id);
        } else {
            let (i, k) = choose|i: int, k: int|
                i < d.monitors.len() && #[trigger] parking_allocator::holds_cell(
                    d.monitors,
                    d.held,
                    id,
                    base[id],
                    i,
                    k,
                );
            assert(d.pool.contains(d.held[i][k]));
            let a = choose|a: int| 0 <= a < d.pool.len() && d.pool[a] == id;
            assert(parking_allocator::is_member_id(input, d.pool[a]));
        }
    }
}

/// A set that is designated to a slot goes to that very cell of the slot's monitor; it is minimized
/// where the user has excluded that monitor, where it is not connected, or where its split has no
/// such cell.
pub proof fn law_designated_set_goes_to_its_cell(input: AllocationView, i: int, s: int)
    requires
        holds_in_memory(input),
        all_distinct(input),
        0 <= i < input.worksets.len(),
        input.current != Some(input.worksets[i].id),
        0 <= s < input.fixed_slots.len(),
        input.worksets[i].parking_policy == (ParkingPolicy::Fixed {
            slot_id: input.fixed_slots[s].id,
        }),
        forall|t: int|
            0 <= t < s ==> (#[trigger] input.fixed_slots[t]).id != input.fixed_slots[s].id,
    ensures
        ({
            let slot = input.fixed_slots[s];
            let places = parking_allocator::allocation(input).0;
            let id = input.worksets[i].id;
            let barred = exists|e: int|
                0 <= e < input.saved_monitors.len() && (
                #[trigger] input.saved_monitors[e]).stable_id@ == slot.monitor_id@
                    && input.saved_monitors[e].excluded;
            let cells = match slot.grid {
                AutoSplit::One => 1int,
                AutoSplit::TwoColumns => 2,
                AutoSplit::FourGrid => 4,
            };
            &&& places.contains_key(id)
            &&& barred ==> places[id] == AssignmentView::Minimized
            &&& (forall|m: int|
                0 <= m < input.live_monitors.len() ==> (
                #[trigger] input.live_monitors[m]).device_name@ != slot.monitor_id@)
                ==> places[id] == AssignmentView::Minimized
            &&& slot.cell_index >= cells ==> places[id] == AssignmentView::Minimized
            &&& forall|m: int|
                0 <= m < input.live_monitors.len() && (
                #[trigger] input.live_monitors[m]).device_name@ == slot.monitor_id@ && !barred
                    && slot.cell_index < cells ==> places[id] == AssignmentView::Fixed(
                    SlotView { monitor: slot.monitor_id@, cell: slot.cell_index as int },
                    layout_service::split_cells(
                        input.live_monitors[m].work_area_px,
                        slot.grid,
                    )[slot.cell_index as int],
                )
        }),
{
    let slots = input.fixed_slots;
    let slot = slots[s];
    let test = |t: int| slots[t].id == slot.id;
    order::lemma_first_where_some(slots.len(), test, s);
    assert(parking_allocator::fixed_slot_of(input, input.worksets[i]) == Some(slot));
    parking_allocator::law_designated_set_keeps_its_cell(input, i);
    monitor_resolution::lemma_live_monitor(input.live_monitors, slot.monitor_id@);
    assert forall|m: int|
        0 <= m < input.live_monitors.len() && (#[trigger] input.live_monitors[m]).device_name@
            == slot.monitor_id@ implies monitor_resolution::live_monitor(
        input.live_monitors,
        slot.monitor_id@,
    ) == Some(input.live_monitors[m]) by {
        let live = monitor_resolution::live_monitor(input.live_monitors, slot.monitor_id@)->0;
        let at = choose|at: int|
            0 <= at < input.live_monitors.len() && input.live_monitors[at] == live;
        if at < m {
            assert(input.live_monitors[at].device_name@ != input.live_monitors[m].device_name@);
        } else if m < at {
            assert(input.live_monitors[m].device_name@ != input.live_monitors[at].device_name@);
        }
    }
}

/// The monitor takes `n` sets at most: as many as the split that is saved for it has cells, or,
/// where none is saved, six where a side has at least 2400 pixels and four otherwise.
pub open spec fn takes(saved: Seq<SavedMonitor>, m: MonitorInfo, n: int) -> bool {
    ||| exists|s: int|
        {
            &&& 0 <= s < saved.len()
            &&& (#[trigger] saved[s]).stable_id@ == m.device_name@
            &&& forall|t: int|
                0 <= t < s ==> (#[trigger] saved[t]).stable_id@ != m.device_name@
            &&& n == match saved[s].auto_split {
                Some(AutoSplit::One) => 1int,
                Some(AutoSplit::TwoColumns) => 2,
                Some(AutoSplit::FourGrid) => 4,
                None => by_size(m.work_area_px),
            }
        }
    ||| n == by_size(m.work_area_px) && forall|t: int|
        0 <= t < saved.len() ==> (#[trigger] saved[t]).stable_id@ != m.device_name@
}

pub open spec fn by_size(area: PixelRect) -> int {
    if area.width >= 2400 || area.height >= 2400 {
        6
    } else {
        4
    }
}

proof fn lemma_takes(saved: Seq<SavedMonitor>, m: MonitorInfo, n: int)
    requires
        takes(saved, m, n),
    ensures
        n == parking_allocator::monitor_capacity(saved, m),
{
    let test = |i: int| saved[i].stable_id@ == m.device_name@;
    if exists|s: int|
        0 <= s < saved.len() && (#[trigger] saved[s]).stable_id@ == m.device_name@ {
        let s = choose|s: int|
            {
                &&& 0 <= s < saved.len()
                &&& (#[trigger] saved[s]).stable_id@ == m.device_name@
                &&& forall|t: int|
                    0 <= t < s ==> (#[trigger] saved[t]).stable_id@ != m.device_name@
                &&& n == match saved[s].auto_split {
                    Some(AutoSplit::One) => 1int,
                    Some(AutoSplit::TwoColumns) => 2,
                    Some(AutoSplit::FourGrid) => 4,
                    None => by_size(m.work_area_px),
                }
            };
        assert(test(s));
        assert forall|t: int| 0 <= t < s implies !#[trigger] test(t) by {
            assert(saved[t].stable_id@ != m.device_name@);
        }
        order::lemma_first_where_some(saved.len(), test, s);
    } else {
        order::lemma_first_where_none(saved.len(), test);
    }
}

/// A free monitor that is connected is one of those that cells are dealt out on.
proof fn lemma_free_is_dealt(input: AllocationView, d: Dealing, m: int) -> (i: int)
    requires
        monitor_resolution::in_reading_order(
            d.monitors,
            parking_allocator::auto_targets(input),
        ),
        0 <= m < input.live_monitors.len(),
        is_free(input, input.live_monitors[m].device_name@),
    ensures
        0 <= i < d.monitors.len(),
        d.monitors[i] == input.live_monitors[m],
{
    let keep = |x: MonitorInfo| parking_allocator::is_auto_target(input, x);
    let targets = parking_allocator::auto_targets(input);
    lemma_target_is_free(input, input.live_monitors[m]);
    let j = lemma_filter_has(input.live_monitors, keep, m);
    let keys = monitor_resolution::reading_keys(targets);
    let o = choose|o: Seq<usize>| #[trigger]
        order::is_stable_order(o, keys) && d.monitors == order::picked(targets, o);
    order::lemma_stable_order_distinct(o, keys);
    order::lemma_order_is_complete(o, keys.len());
    assert(o.contains(j as usize));
    let i = choose|i: int| 0 <= i < o.len() && o[i] == j as usize;
    assert(d.monitors[i] == targets[j]);
    i
}

proof fn lemma_filter_has<T>(s: Seq<T>, keep: spec_fn(T) -> bool, i: int) -> (j: int)
    requires
        0 <= i < s.len(),
        keep(s[i]),
    ensures
        0 <= j < s.filter(keep).len(),
        s.filter(keep)[j] == s[i],
    decreases s.len(),
{
    reveal(Seq::filter);
    if i == s.len() - 1 {
        s.filter(keep).len() - 1
    } else {
        lemma_filter_has(s.drop_last(), keep, i)
    }
}

/// A monitor that sets are parked on is cut into as many cells as there are sets on it, at most as
/// many as it takes; each set has one of them, and the sets are listed here by their cells.
pub proof fn law_monitor_is_cut_by_its_sets(input: AllocationView, m: int, n: int) -> (list: Seq<
    Uuid,
>)
    requires
        holds_in_memory(input),
        all_distinct(input),
        0 <= m < input.live_monitors.len(),
        is_free(input, input.live_monitors[m].device_name@),
        takes(input.saved_monitors, input.live_monitors[m], n),
    ensures
        ({
            let (places, slots) = parking_allocator::allocation(input);
            let area = input.live_monitors[m].work_area_px;
            let name = input.live_monitors[m].device_name@;
            &&& list.no_duplicates()
            &&& list.len() <= n
            &&& forall|k: int|
                0 <= k < list.len() ==> slots.contains_key(#[trigger] list[k]) && slots[list[k]]
                    == (SlotView { monitor: name, cell: k }) && places.contains_key(list[k])
                    && places[list[k]] == AssignmentView::Auto(
                    slots[list[k]],
                    parking_cells::cells_for(area, list.len())[k],
                )
            &&& forall|id: Uuid| #[trigger]
                slots.contains_key(id) && slots[id].monitor == name ==> list.contains(id)
        }),
{
    let d = lemma_dealing(input);
    let i = lemma_free_is_dealt(input, d, m);
    lemma_takes(input.saved_monitors, input.live_monitors[m], n);
    let (places, slots) = parking_allocator::allocation(input);
    let list = d.held[i];
    let name = input.live_monitors[m].device_name@;
    assert forall|a: int, b: int| 0 <= a < list.len() && 0 <= b < list.len() && a != b implies list[a]
        != list[b] by {
        assert(d.held[i][a] == d.held[i][b] ==> a == b);
    }
    assert forall|k: int| 0 <= k < list.len() implies slots.contains_key(#[trigger] list[k])
        && slots[list[k]] == (SlotView { monitor: name, cell: k }) && places.contains_key(list[k])
        && places[list[k]] == AssignmentView::Auto(
        slots[list[k]],
        parking_cells::cells_for(input.live_monitors[m].work_area_px, list.len())[k],
    ) by {
        parking_allocator::lemma_held_slot(d.monitors, d.held, i, k);
        lemma_held_has_place(input, d, i, k);
    }
    assert forall|id: Uuid| #[trigger]
        slots.contains_key(id) && slots[id].monitor == name implies list.contains(id) by {
        let (j, l) = parking_allocator::lemma_slot_is_held(d.monitors, d.held, id);
        if i < j {
            assert(d.monitors[i].device_name@ != d.monitors[j].device_name@);
        } else if j < i {
            assert(d.monitors[j].device_name@ != d.monitors[i].device_name@);
        }
        assert(list[l] == id);
    }
    list
}

/// A set that is the only one parked on a monitor has the whole work area.
pub proof fn law_lone_set_has_the_whole_monitor(input: AllocationView, m: int, n: int, id: Uuid)
    requires
        holds_in_memory(input),
        all_distinct(input),
        0 <= m < input.live_monitors.len(),
        is_free(input, input.live_monitors[m].device_name@),
        takes(input.saved_monitors, input.live_monitors[m], n),
        parking_allocator::allocation(input).1.contains_key(id),
        parking_allocator::allocation(input).1[id].monitor
            == input.live_monitors[m].device_name@,
        forall|x: Uuid| #[trigger]
            parking_allocator::allocation(input).1.contains_key(x) && x != id
                ==> parking_allocator::allocation(input).1[x].monitor
                != input.live_monitors[m].device_name@,
    ensures
        parking_allocator::allocation(input).0[id] == AssignmentView::Auto(
            SlotView { monitor: input.live_monitors[m].device_name@, cell: 0 },
            input.live_monitors[m].work_area_px,
        ),
{
    let list = law_monitor_is_cut_by_its_sets(input, m, n);
    let k = choose|k: int| 0 <= k < list.len() && list[k] == id;
    if list.len() > 1 {
        let j: int = if k == 0 {
            1
        } else {
            0
        };
        assert(list[j] != list[k]);
        assert(parking_allocator::allocation(input).1.contains_key(list[j]));
    }
}

/// Two sets that are parked as room allows never have a pixel in common on one monitor.
pub proof fn law_dealt_cells_do_not_overlap(
    input: AllocationView,
    m: int,
    n: int,
    a: Uuid,
    b: Uuid,
    px: int,
    py: int,
)
    requires
        holds_in_memory(input),
        all_distinct(input),
        parking_allocator::monitors_fit(input.live_monitors),
        0 <= m < input.live_monitors.len(),
        is_free(input, input.live_monitors[m].device_name@),
        takes(input.saved_monitors, input.live_monitors[m], n),
        a != b,
        parking_allocator::allocation(input).1.contains_key(a),
        parking_allocator::allocation(input).1.contains_key(b),
        parking_allocator::allocation(input).1[a].monitor
            == input.live_monitors[m].device_name@,
        parking_allocator::allocation(input).1[b].monitor
            == input.live_monitors[m].device_name@,
    ensures
        !(parking_allocator::allocation(input).0[a]->Auto_1.covers(px, py)
            && parking_allocator::allocation(input).0[b]->Auto_1.covers(px, py)),
        parking_allocator::allocation(input).1[a] != parking_allocator::allocation(input).1[b],
{
    let list = law_monitor_is_cut_by_its_sets(input, m, n);
    let area = input.live_monitors[m].work_area_px;
    let k = choose|k: int| 0 <= k < list.len() && list[k] == a;
    let l = choose|l: int| 0 <= l < list.len() && list[l] == b;
    assert(area.fits());
    lemma_takes(input.saved_monitors, input.live_monitors[m], n);
    parking_allocator::lemma_capacity_bound(input.saved_monitors, input.live_monitors[m]);
    parking_cells::lemma_cells_for_len(area, list.len());
    parking_cells::law_cells_tile_the_region(area, list.len());
    let cells = parking_cells::cells_for(area, list.len());
    assert(parking_allocator::allocation(input).0[list[k]]->Auto_1 == cells[k]);
    assert(parking_allocator::allocation(input).0[list[l]]->Auto_1 == cells[l]);
    if k < l {
        assert(cells[k].covers(px, py) ==> !cells[l].covers(px, py));
    } else {
        assert(cells[l].covers(px, py) ==> !cells[k].covers(px, py));
    }
}

/// A set that is parked as room allows is minimized only where every cell of every free monitor is
/// taken.
pub proof fn law_minimized_only_when_every_cell_is_taken(
    input: AllocationView,
    i: int,
    m: int,
    n: int,
    c: int,
)
    requires
        holds_in_memory(input),
        all_distinct(input),
        0 <= i < input.worksets.len(),
        input.worksets[i].parking_policy == ParkingPolicy::Auto,
        parking_allocator::allocation(input).0.contains_key(input.worksets[i].id),
        parking_allocator::allocation(input).0[input.worksets[i].id] == AssignmentView::Minimized,
        0 <= m < input.live_monitors.len(),
        is_free(input, input.live_monitors[m].device_name@),
        takes(input.saved_monitors, input.live_monitors[m], n),
        0 <= c < n,
    ensures
        exists|id: Uuid| #[trigger]
            parking_allocator::allocation(input).1.contains_key(id)
                && parking_allocator::allocation(input).1[id] == (SlotView {
                monitor: input.live_monitors[m].device_name@,
                cell: c,
            }),
{
    let d = lemma_dealing(input);
    let id = input.worksets[i].id;
    let at = lemma_free_is_dealt(input, d, m);
    lemma_takes(input.saved_monitors, input.live_monitors[m], n);
    lemma_parked_origin(input, d, id);
    let fixed = parking_allocator::fixed_places(input, input.worksets.len());
    if fixed.contains_key(id) {
        let j = lemma_fixed_origin(input, input.worksets.len(), id);
        lemma_same_set(input, i, j);
    }
    assert(!parking_allocator::is_held(d.held, id)) by {
        if parking_allocator::is_held(d.held, id) {
            let x = choose|x: int| 0 <= x < d.held.len() && (#[trigger] d.held[x]).contains(id);
            let y = choose|y: int| 0 <= y < d.held[x].len() && d.held[x][y] == id;
            lemma_held_has_place(input, d, x, y);
        }
    }
    parking_allocator::lemma_pool(input, d.pool);
    let j = choose|j: int|
        0 <= j < input.worksets.len() && (#[trigger] input.worksets[j]).id == id
            && parking_allocator::is_auto_parked(input, input.worksets[j]);
    assert(d.pool.contains(input.worksets[j].id));
    let p = choose|p: int| 0 <= p < d.pool.len() && d.pool[p] == id;
    parking_allocator::law_minimized_only_when_full(
        input.saved_monitors,
        d.monitors,
        input.previous,
        d.pool,
        p,
    );
    assert(d.held[at].len() == parking_allocator::monitor_capacity(
        input.saved_monitors,
        d.monitors[at],
    ));
    parking_allocator::lemma_held_slot(d.monitors, d.held, at, c);
    assert(parking_allocator::allocation(input).1.contains_key(d.held[at][c]));
}

// ---------------------------------------------------------------------------
// Staying where one was
// ---------------------------------------------------------------------------

/// A monitor that is full while the sets that can stay are placed holds the same sets ever after.
proof fn lemma_kept_full(
    saved: Seq<SavedMonitor>,
    monitors: Seq<MonitorInfo>,
    previous: Map<Uuid, SlotView>,
    pool: Seq<Uuid>,
    m: nat,
    n: nat,
    i: int,
)
    requires
        m <= n <= pool.len(),
        0 <= i < monitors.len(),
        !parking_allocator::room_on(
            saved,
            monitors,
            parking_allocator::kept(saved, monitors, previous, pool, m),
            i,
        ),
    ensures
        parking_allocator::kept(saved, monitors, previous, pool, n)[i] == parking_allocator::kept(
            saved,
            monitors,
            previous,
            pool,
            m,
        )[i],
    decreases n,
{
    if m < n {
        lemma_kept_full(saved, monitors, previous, pool, m, (n - 1) as nat, i);
        let before = parking_allocator::kept(saved, monitors, previous, pool, (n - 1) as nat);
        parking_allocator::lemma_kept_within(saved, monitors, previous, pool, (n - 1) as nat);
        let id = pool[n - 1];
        if previous.contains_key(id) {
            parking_allocator::lemma_monitor_index(monitors, previous[id].monitor);
        }
    }
}

/// A monitor that is full holds the same sets while the others are placed.
proof fn lemma_filled_full(
    saved: Seq<SavedMonitor>,
    monitors: Seq<MonitorInfo>,
    start: Seq<Seq<Uuid>>,
    pool: Seq<Uuid>,
    m: nat,
    n: nat,
    i: int,
)
    requires
        m <= n <= pool.len(),
        0 <= i < monitors.len(),
        parking_allocator::within_capacity(saved, monitors, start),
        !parking_allocator::room_on(
            saved,
            monitors,
            parking_allocator::filled(saved, monitors, start, pool, m),
            i,
        ),
    ensures
        parking_allocator::filled(saved, monitors, start, pool, n)[i] == parking_allocator::filled(
            saved,
            monitors,
            start,
            pool,
            m,
        )[i],
    decreases n,
{
    if m < n {
        lemma_filled_full(saved, monitors, start, pool, m, (n - 1) as nat, i);
        let before = parking_allocator::filled(saved, monitors, start, pool, (n - 1) as nat);
        parking_allocator::lemma_filled_within(saved, monitors, start, pool, (n - 1) as nat);
        parking_allocator::lemma_best_monitor(saved, monitors, before, monitors.len());
    }
}

/// Whoever has stayed on a monitor was on it before.
proof fn lemma_kept_were_there(
    saved: Seq<SavedMonitor>,
    monitors: Seq<MonitorInfo>,
    previous: Map<Uuid, SlotView>,
    pool: Seq<Uuid>,
    n: nat,
    i: int,
    k: int,
)
    requires
        n <= pool.len(),
        0 <= i < monitors.len(),
        0 <= k < parking_allocator::kept(saved, monitors, previous, pool, n)[i].len(),
    ensures
        ({
            let id = parking_allocator::kept(saved, monitors, previous, pool, n)[i][k];
            previous.contains_key(id) && previous[id].monitor == monitors[i].device_name@
        }),
    decreases n,
{
    if n > 0 {
        let before = parking_allocator::kept(saved, monitors, previous, pool, (n - 1) as nat);
        parking_allocator::lemma_kept_within(saved, monitors, previous, pool, (n - 1) as nat);
        let id = pool[n - 1];
        if previous.contains_key(id) {
            parking_allocator::lemma_monitor_index(monitors, previous[id].monitor);
        }
        if k < before[i].len() {
            lemma_kept_were_there(saved, monitors, previous, pool, (n - 1) as nat, i, k);
        }
    }
}

/// Whoever has stayed is there in the end.
proof fn lemma_kept_is_held(
    saved: Seq<SavedMonitor>,
    monitors: Seq<MonitorInfo>,
    previous: Map<Uuid, SlotView>,
    pool: Seq<Uuid>,
    m: nat,
    i: int,
    id: Uuid,
)
    requires
        m <= pool.len(),
        0 <= i < monitors.len(),
        parking_allocator::kept(saved, monitors, previous, pool, m)[i].contains(id),
    ensures
        parking_allocator::occupancy(saved, monitors, previous, pool)[i].contains(id),
{
    lemma_kept_stays(saved, monitors, previous, pool, m, pool.len(), i, id);
    let start = parking_allocator::kept(saved, monitors, previous, pool, pool.len());
    parking_allocator::lemma_kept_within(saved, monitors, previous, pool, pool.len());
    lemma_filled_keeps(saved, monitors, start, pool, pool.len(), i, id);
    parking_allocator::lemma_seated(saved, monitors, previous, pool);
    assert(parking_allocator::joined(saved, monitors, previous, pool)[i].contains(id));
}

proof fn lemma_kept_stays(
    saved: Seq<SavedMonitor>,
    monitors: Seq<MonitorInfo>,
    previous: Map<Uuid, SlotView>,
    pool: Seq<Uuid>,
    m: nat,
    n: nat,
    i: int,
    id: Uuid,
)
    requires
        m <= n <= pool.len(),
        0 <= i < monitors.len(),
        parking_allocator::kept(saved, monitors, previous, pool, m)[i].contains(id),
    ensures
        parking_allocator::kept(saved, monitors, previous, pool, n)[i].contains(id),
    decreases n,
{
    if m < n {
        lemma_kept_stays(saved, monitors, previous, pool, m, (n - 1) as nat, i, id);
        let before = parking_allocator::kept(saved, monitors, previous, pool, (n - 1) as nat);
        parking_allocator::lemma_kept_within(saved, monitors, previous, pool, (n - 1) as nat);
        let x = pool[n - 1];
        if previous.contains_key(x) {
            parking_allocator::lemma_monitor_index(monitors, previous[x].monitor);
        }
        parking_allocator::lemma_put_holds(
            before,
            parking_allocator::kept_on(saved, monitors, previous, before, x),
            x,
            i,
            id,
        );
    }
}

proof fn lemma_filled_keeps(
    saved: Seq<SavedMonitor>,
    monitors: Seq<MonitorInfo>,
    start: Seq<Seq<Uuid>>,
    pool: Seq<Uuid>,
    n: nat,
    i: int,
    id: Uuid,
)
    requires
        n <= pool.len(),
        0 <= i < monitors.len(),
        parking_allocator::within_capacity(saved, monitors, start),
        start[i].contains(id),
    ensures
        parking_allocator::filled(saved, monitors, start, pool, n)[i].contains(id),
    decreases n,
{
    if n > 0 {
        lemma_filled_keeps(saved, monitors, start, pool, (n - 1) as nat, i, id);
        let before = parking_allocator::filled(saved, monitors, start, pool, (n - 1) as nat);
        parking_allocator::lemma_filled_within(saved, monitors, start, pool, (n - 1) as nat);
        parking_allocator::lemma_best_monitor(saved, monitors, before, monitors.len());
        parking_allocator::lemma_put_holds(
            before,
            parking_allocator::best_monitor(saved, monitors, before, monitors.len()),
            pool[n - 1],
            i,
            id,
        );
    }
}

/// A set that was parked on a monitor stays there: it leaves a free monitor only where every cell
/// of it goes to a set that was on the same monitor before.
pub proof fn law_set_stays_on_its_monitor(
    input: AllocationView,
    i: int,
    m: int,
    n: int,
    c: int,
)
    requires
        holds_in_memory(input),
        all_distinct(input),
        0 <= i < input.worksets.len(),
        input.worksets[i].parking_policy == ParkingPolicy::Auto,
        input.current != Some(input.worksets[i].id),
        input.with_windows.contains(input.worksets[i].id),
        0 <= m < input.live_monitors.len(),
        is_free(input, input.live_monitors[m].device_name@),
        takes(input.saved_monitors, input.live_monitors[m], n),
        input.previous.contains_key(input.worksets[i].id),
        input.previous[input.worksets[i].id].monitor == input.live_monitors[m].device_name@,
        0 <= c < n,
    ensures
        ({
            let slots = parking_allocator::allocation(input).1;
            let id = input.worksets[i].id;
            let name = input.live_monitors[m].device_name@;
            ||| slots.contains_key(id) && slots[id].monitor == name
            ||| exists|x: Uuid| #[trigger]
                slots.contains_key(x) && slots[x] == (SlotView { monitor: name, cell: c })
                    && input.previous.contains_key(x) && input.previous[x].monitor == name
        }),
{
    let d = lemma_dealing(input);
    let saved = input.saved_monitors;
    let previous = input.previous;
    let id = input.worksets[i].id;
    let at = lemma_free_is_dealt(input, d, m);
    lemma_takes(saved, input.live_monitors[m], n);
    parking_allocator::lemma_pool(input, d.pool);
    assert(parking_allocator::is_auto_parked(input, input.worksets[i]));
    let p = choose|p: int| 0 <= p < d.pool.len() && d.pool[p] == id;
    let before = parking_allocator::kept(saved, d.monitors, previous, d.pool, p as nat);
    let now = parking_allocator::kept(saved, d.monitors, previous, d.pool, (p + 1) as nat);
    parking_allocator::lemma_kept_within(saved, d.monitors, previous, d.pool, p as nat);
    parking_allocator::lemma_name_index(d.monitors, at);
    if parking_allocator::room_on(saved, d.monitors, before, at) {
        assert(now[at][before[at].len() as int] == id);
        assert(now[at].contains(id));
        lemma_kept_is_held(saved, d.monitors, previous, d.pool, (p + 1) as nat, at, id);
        let k = choose|k: int| 0 <= k < d.held[at].len() && d.held[at][k] == id;
        parking_allocator::lemma_held_slot(d.monitors, d.held, at, k);
    } else {
        let start = parking_allocator::kept(saved, d.monitors, previous, d.pool, d.pool.len());
        lemma_kept_full(saved, d.monitors, previous, d.pool, p as nat, d.pool.len(), at);
        parking_allocator::lemma_kept_within(saved, d.monitors, previous, d.pool, d.pool.len());
        lemma_filled_full(saved, d.monitors, start, d.pool, 0, d.pool.len(), at);
        parking_allocator::lemma_seated(saved, d.monitors, previous, d.pool);
        let on = parking_allocator::joined(saved, d.monitors, previous, d.pool);
        assert(on[at] == before[at]);
        assert(d.held[at].len() == n);
        let x = d.held[at][c];
        assert(d.held[at].contains(x));
        assert(on[at].contains(x));
        let k = choose|k: int| 0 <= k < before[at].len() && before[at][k] == x;
        lemma_kept_were_there(saved, d.monitors, previous, d.pool, p as nat, at, k);
        parking_allocator::lemma_held_slot(d.monitors, d.held, at, c);
        assert(parking_allocator::allocation(input).1.contains_key(x));
    }
}

// ---------------------------------------------------------------------------
// Dealing anew
// ---------------------------------------------------------------------------

/// Where no set was parked before, none stays.
proof fn lemma_nobody_stays(
    saved: Seq<SavedMonitor>,
    monitors: Seq<MonitorInfo>,
    previous: Map<Uuid, SlotView>,
    pool: Seq<Uuid>,
    n: nat,
)
    requires
        forall|id: Uuid| !#[trigger] previous.contains_key(id),
    ensures
        parking_allocator::kept(saved, monitors, previous, pool, n) == Seq::new(
            monitors.len(),
            |i: int| Seq::<Uuid>::empty(),
        ),
    decreases n,
{
    if n > 0 {
        lemma_nobody_stays(saved, monitors, previous, pool, (n - 1) as nat);
    }
}

/// As long as one monitor is empty, no monitor has two sets.
proof fn lemma_spread_out(
    saved: Seq<SavedMonitor>,
    monitors: Seq<MonitorInfo>,
    start: Seq<Seq<Uuid>>,
    pool: Seq<Uuid>,
    n: nat,
    i: int,
    j: int,
)
    requires
        n <= pool.len(),
        start == Seq::new(monitors.len(), |i: int| Seq::<Uuid>::empty()),
        0 <= i < monitors.len(),
        0 <= j < monitors.len(),
        parking_allocator::filled(saved, monitors, start, pool, n)[i].len() == 0,
    ensures
        parking_allocator::filled(saved, monitors, start, pool, n)[j].len() <= 1,
    decreases n,
{
    if n > 0 {
        let before = parking_allocator::filled(saved, monitors, start, pool, (n - 1) as nat);
        assert(parking_allocator::within_capacity(saved, monitors, start));
        parking_allocator::lemma_filled_within(saved, monitors, start, pool, (n - 1) as nat);
        parking_allocator::lemma_best_monitor(saved, monitors, before, monitors.len());
        parking_allocator::lemma_capacity_bound(saved, monitors[i]);
        assert(before[i].len() == 0);
        lemma_spread_out(saved, monitors, start, pool, (n - 1) as nat, i, j);
        assert(parking_allocator::room_on(saved, monitors, before, i));
        let b = parking_allocator::best_monitor(saved, monitors, before, monitors.len());
        if let Some(x) = b {
            assert(!parking_allocator::better_on(monitors, before, i, x));
            assert(before[x].len() == 0);
        }
    }
}

/// No screen stays empty while another is shared: where no set was parked before, and a free
/// monitor has no set, no other free monitor has two.
pub proof fn law_empty_monitors_come_first(
    input: AllocationView,
    m: int,
    l: int,
    a: Uuid,
    b: Uuid,
)
    requires
        holds_in_memory(input),
        all_distinct(input),
        forall|id: Uuid| !#[trigger] input.previous.contains_key(id),
        0 <= m < input.live_monitors.len(),
        is_free(input, input.live_monitors[m].device_name@),
        0 <= l < input.live_monitors.len(),
        is_free(input, input.live_monitors[l].device_name@),
        forall|id: Uuid| #[trigger]
            parking_allocator::allocation(input).1.contains_key(id)
                ==> parking_allocator::allocation(input).1[id].monitor
                != input.live_monitors[m].device_name@,
        parking_allocator::allocation(input).1.contains_key(a),
        parking_allocator::allocation(input).1[a].monitor
            == input.live_monitors[l].device_name@,
        parking_allocator::allocation(input).1.contains_key(b),
        parking_allocator::allocation(input).1[b].monitor
            == input.live_monitors[l].device_name@,
    ensures
        a == b,
{
    let d = lemma_dealing(input);
    let saved = input.saved_monitors;
    let previous = input.previous;
    let x = lemma_free_is_dealt(input, d, m);
    let y = lemma_free_is_dealt(input, d, l);
    lemma_nobody_stays(saved, d.monitors, previous, d.pool, d.pool.len());
    parking_allocator::lemma_seated(saved, d.monitors, previous, d.pool);
    let on = parking_allocator::joined(saved, d.monitors, previous, d.pool);
    assert(d.held[x].len() == on[x].len() && d.held[y].len() == on[y].len());
    if on[x].len() > 0 {
        parking_allocator::lemma_held_slot(d.monitors, d.held, x, 0);
        assert(parking_allocator::allocation(input).1.contains_key(d.held[x][0]));
    }
    let start = parking_allocator::kept(saved, d.monitors, previous, d.pool, d.pool.len());
    lemma_spread_out(saved, d.monitors, start, d.pool, d.pool.len(), x, y);
    let (i, k) = parking_allocator::lemma_slot_is_held(d.monitors, d.held, a);
    let (j, o) = parking_allocator::lemma_slot_is_held(d.monitors, d.held, b);
    parking_allocator::lemma_name_index(d.monitors, i);
    parking_allocator::lemma_name_index(d.monitors, j);
    parking_allocator::lemma_name_index(d.monitors, y);
    assert(i == y && j == y && k == 0 && o == 0);
}

/// Only the first `n` sets of the pool are placed by then.
proof fn lemma_filled_early(
    saved: Seq<SavedMonitor>,
    monitors: Seq<MonitorInfo>,
    start: Seq<Seq<Uuid>>,
    pool: Seq<Uuid>,
    n: nat,
    i: int,
    k: int,
) -> (p: int)
    requires
        n <= pool.len(),
        start == Seq::new(monitors.len(), |i: int| Seq::<Uuid>::empty()),
        0 <= i < monitors.len(),
        0 <= k < parking_allocator::filled(saved, monitors, start, pool, n)[i].len(),
    ensures
        0 <= p < n,
        pool[p] == parking_allocator::filled(saved, monitors, start, pool, n)[i][k],
    decreases n,
{
    let before = parking_allocator::filled(saved, monitors, start, pool, (n - 1) as nat);
    assert(parking_allocator::within_capacity(saved, monitors, start));
    parking_allocator::lemma_filled_within(saved, monitors, start, pool, (n - 1) as nat);
    parking_allocator::lemma_best_monitor(saved, monitors, before, monitors.len());
    if k < before[i].len() {
        lemma_filled_early(saved, monitors, start, pool, (n - 1) as nat, i, k)
    } else {
        n - 1
    }
}

/// The places of the pool follow the manual order of the sets.
proof fn lemma_pool_order(input: AllocationView, pool: Seq<Uuid>, i: int, j: int) -> (r: (int, int))
    requires
        parking_allocator::is_pool(input, pool),
        parking_allocator::distinct_sets(input.worksets),
        0 <= i < input.worksets.len(),
        0 <= j < input.worksets.len(),
        parking_allocator::is_auto_parked(input, input.worksets[i]),
        parking_allocator::is_auto_parked(input, input.worksets[j]),
        input.worksets[i].sort_order < input.worksets[j].sort_order,
    ensures
        0 <= r.0 < r.1 < pool.len(),
        pool[r.0] == input.worksets[i].id,
        pool[r.1] == input.worksets[j].id,
{
    let keep = |w: Workset| parking_allocator::is_auto_parked(input, w);
    let members = parking_allocator::auto_members(input);
    let keys = parking_allocator::member_keys(members);
    let o = choose|o: Seq<usize>| #[trigger]
        order::is_stable_order(o, keys) && pool == order::picked(
            parking_allocator::member_ids(members),
            o,
        );
    order::lemma_stable_order_distinct(o, keys);
    order::lemma_order_is_complete(o, keys.len());
    let x = lemma_filter_has(input.worksets, keep, i);
    let y = lemma_filter_has(input.worksets, keep, j);
    assert(o.contains(x as usize) && o.contains(y as usize));
    let a = choose|a: int| 0 <= a < o.len() && o[a] == x as usize;
    let b = choose|b: int| 0 <= b < o.len() && o[b] == y as usize;
    assert(pool[a] == members[x].id && pool[b] == members[y].id);
    assert(keys[x].0 == input.worksets[i].sort_order && keys[y].0 == input.worksets[j].sort_order);
    if b < a {
        assert(order::stable_before(keys, o[b] as int, o[a] as int));
        assert(false);
    }
    (a, b)
}

/// Cells are dealt out in the manual order of the sets: where no set was parked before, a set that
/// finds no room is followed by none that does.
pub proof fn law_cells_are_dealt_in_manual_order(input: AllocationView, i: int, j: int)
    requires
        holds_in_memory(input),
        all_distinct(input),
        forall|id: Uuid| !#[trigger] input.previous.contains_key(id),
        0 <= i < input.worksets.len(),
        0 <= j < input.worksets.len(),
        input.worksets[i].sort_order < input.worksets[j].sort_order,
        input.worksets[i].parking_policy == ParkingPolicy::Auto,
        input.current != Some(input.worksets[i].id),
        input.with_windows.contains(input.worksets[i].id),
        parking_allocator::allocation(input).1.contains_key(input.worksets[j].id),
    ensures
        parking_allocator::allocation(input).1.contains_key(input.worksets[i].id),
{
    let d = lemma_dealing(input);
    let saved = input.saved_monitors;
    let previous = input.previous;
    let (x, y) = (input.worksets[i].id, input.worksets[j].id);
    let (u, v) = parking_allocator::lemma_slot_is_held(d.monitors, d.held, y);
    parking_allocator::lemma_pool(input, d.pool);
    assert(d.pool.contains(d.held[u][v]));
    let z = choose|z: int| 0 <= z < d.pool.len() && d.pool[z] == y;
    assert(parking_allocator::is_member_id(input, d.pool[z]));
    let w = choose|w: int|
        0 <= w < input.worksets.len() && (#[trigger] input.worksets[w]).id == y
            && parking_allocator::is_auto_parked(input, input.worksets[w]);
    lemma_same_set(input, w, j);
    let (a, b) = lemma_pool_order(input, d.pool, i, j);
    if parking_allocator::is_held(d.held, x) {
        let s = choose|s: int| 0 <= s < d.held.len() && (#[trigger] d.held[s]).contains(x);
        let t = choose|t: int| 0 <= t < d.held[s].len() && d.held[s][t] == x;
        parking_allocator::lemma_held_slot(d.monitors, d.held, s, t);
    } else {
        lemma_nobody_stays(saved, d.monitors, previous, d.pool, d.pool.len());
        let start = parking_allocator::kept(saved, d.monitors, previous, d.pool, d.pool.len());
        parking_allocator::lemma_kept_within(saved, d.monitors, previous, d.pool, d.pool.len());
        parking_allocator::lemma_filled_within(saved, d.monitors, start, d.pool, a as nat);
        parking_allocator::lemma_seated(saved, d.monitors, previous, d.pool);
        let on = parking_allocator::joined(saved, d.monitors, previous, d.pool);
        let then = parking_allocator::filled(saved, d.monitors, start, d.pool, a as nat);
        let next = parking_allocator::filled(saved, d.monitors, start, d.pool, (a + 1) as nat);
        parking_allocator::lemma_filled_grows(
            saved,
            d.monitors,
            start,
            d.pool,
            a as nat,
            d.pool.len(),
        );
        parking_allocator::lemma_filled_grows(
            saved,
            d.monitors,
            start,
            d.pool,
            (a + 1) as nat,
            d.pool.len(),
        );
        parking_allocator::lemma_best_monitor(saved, d.monitors, then, d.monitors.len());
        assert(!parking_allocator::is_held(on, x)) by {
            if parking_allocator::is_held(on, x) {
                let s = choose|s: int| 0 <= s < on.len() && (#[trigger] on[s]).contains(x);
                assert(d.held[s].contains(x));
            }
        }
        assert(!parking_allocator::is_held(then, x));
        assert(!parking_allocator::is_held(next, x));
        if let Some(s) = parking_allocator::best_monitor(
            saved,
            d.monitors,
            then,
            d.monitors.len(),
        ) {
            assert(next[s][then[s].len() as int] == x);
            assert(next[s].contains(x));
        }
        assert(!parking_allocator::room_on(saved, d.monitors, then, u));
        lemma_filled_full(saved, d.monitors, start, d.pool, a as nat, d.pool.len(), u);
        assert(d.held[u].contains(y));
        assert(on[u].contains(y));
        let k = choose|k: int| 0 <= k < then[u].len() && then[u][k] == y;
        let p = lemma_filled_early(saved, d.monitors, start, d.pool, a as nat, u, k);
        assert(d.pool[p] == d.pool[b]);
    }
}

} // verus!
