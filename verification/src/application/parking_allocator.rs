//! Which set parks where: the identity of parking cells and the way they are dealt out.

use vstd::prelude::*;
use std::collections::{HashMap, HashSet};

use crate::application::layout_service;
use crate::application::monitor_resolution;
use crate::application::parking_cells;
use crate::application::parking_seats;
use crate::domain::monitor::{MonitorInfo, SavedMonitor};
use crate::domain::placement;
use crate::domain::placement::PixelRect;
use crate::domain::workset::{FixedParkingSlot, ParkingPolicy, Workset};
use crate::ids::Uuid;
use crate::order;
use crate::text;

verus! {

broadcast use vstd::std_specs::hash::group_hash_axioms;

/// A parking cell: which monitor, and which cell of its split.
#[derive(Debug, PartialEq, Eq, Hash)]
pub struct ParkingSlotId {
    pub monitor_id: String,
    pub cell_index: usize,
}

/// A [`ParkingSlotId`] as a mathematical value.
pub struct SlotView {
    pub monitor: Seq<char>,
    pub cell: int,
}

impl View for ParkingSlotId {
    type V = SlotView;

    open spec fn view(&self) -> SlotView {
        SlotView { monitor: self.monitor_id@, cell: self.cell_index as int }
    }
}

/// The text that a slot is kept as.
pub open spec fn slot_text(slot: SlotView) -> Seq<char> {
    slot.monitor + seq![':', ':'] + text::decimal(slot.cell as nat)
}

/// The slot that a text is read as: split at the last `::`, a cell number behind it.
pub open spec fn slot_read(s: Seq<char>) -> Option<SlotView> {
    match text::split_last_pair(s) {
        Some((monitor, cell)) => match text::unsigned_value(cell, usize::MAX as nat) {
            Some(n) => Some(SlotView { monitor, cell: n as int }),
            None => None,
        },
        None => None,
    }
}

impl ParkingSlotId {
    /// The text under which a slot is kept between runs.
    pub fn encode(&self) -> (r: String)
        ensures
            r@ == slot_text(self@),
    {
        let cell = text::decimal_text(self.cell_index as u64);
        proof {
            reveal_strlit("::");
            assert("::"@ =~= seq![':', ':']);
        }
        text::joined3(self.monitor_id.as_str(), "::", cell.as_str())
    }

    pub fn decode(s: &str) -> (r: Option<Self>)
        ensures
            match r {
                Some(slot) => slot_read(s@) == Some(slot@),
                None => slot_read(s@) is None,
            },
    {
        match text::split_at_last_pair(s) {
            Some((monitor_id, cell)) => {
                let chars = text::chars_of(cell.as_str());
                match text::parse_unsigned(&chars, usize::MAX as u64) {
                    Some(n) => Some(ParkingSlotId { monitor_id, cell_index: n as usize }),
                    None => None,
                }
            },
            None => None,
        }
    }
}

impl Clone for ParkingSlotId {
    fn clone(&self) -> (r: Self)
        ensures
            r == *self,
    {
        ParkingSlotId { monitor_id: self.monitor_id.clone(), cell_index: self.cell_index }
    }
}

/// A slot is read back from its own text, whatever its monitor is called.
pub proof fn law_slot_round_trip(slot: ParkingSlotId)
    ensures
        slot_read(slot_text(slot@)) == Some(slot@),
{
    let n = slot.cell_index as nat;
    text::lemma_decimal_lacks(n as int, ':');
    text::lemma_split_last_pair_of_join(slot.monitor_id@, text::decimal(n));
    text::lemma_unsigned_round_trip(n, usize::MAX as nat);
}

/// Where a set that is not on the main screen ends up.
#[derive(Debug, PartialEq, Eq)]
pub enum ParkAssignment {
    AutoSlot { slot: ParkingSlotId, rect: PixelRect },
    FixedSlot { slot: ParkingSlotId, rect: PixelRect },
    Minimized,
}

/// A [`ParkAssignment`] as a mathematical value.
pub enum AssignmentView {
    Auto(SlotView, PixelRect),
    Fixed(SlotView, PixelRect),
    Minimized,
}

impl View for ParkAssignment {
    type V = AssignmentView;

    open spec fn view(&self) -> AssignmentView {
        match self {
            ParkAssignment::AutoSlot { slot, rect } => AssignmentView::Auto(slot@, *rect),
            ParkAssignment::FixedSlot { slot, rect } => AssignmentView::Fixed(slot@, *rect),
            ParkAssignment::Minimized => AssignmentView::Minimized,
        }
    }
}

/// Everything that the allocation looks at.
pub struct AllocationInput<'a> {
    pub worksets: &'a [Workset],
    /// The set that is, or is about to be, on the main screen. It is never parked.
    pub current_workset_id: Option<Uuid>,
    pub fixed_slots: &'a [FixedParkingSlot],
    pub main_monitor_ids: &'a [String],
    pub live_monitors: &'a [MonitorInfo],
    pub saved_monitors: &'a [SavedMonitor],
    /// Monitors of named parking areas, which are kept for the sets that name them.
    pub sub_screen_monitor_ids: &'a [String],
    /// Where the sets were parked before.
    pub previous_assignments: &'a HashMap<Uuid, ParkingSlotId>,
    /// The sets that have a live window. Only these take up a cell.
    pub worksets_with_windows: &'a HashSet<Uuid>,
}

/// An [`AllocationInput`] as a mathematical value.
pub struct AllocationView {
    pub worksets: Seq<Workset>,
    pub current: Option<Uuid>,
    pub fixed_slots: Seq<FixedParkingSlot>,
    pub main_monitor_ids: Seq<String>,
    pub live_monitors: Seq<MonitorInfo>,
    pub saved_monitors: Seq<SavedMonitor>,
    pub sub_screen_monitor_ids: Seq<Seq<char>>,
    pub previous: Map<Uuid, SlotView>,
    pub with_windows: Set<Uuid>,
}

impl<'a> View for AllocationInput<'a> {
    type V = AllocationView;

    open spec fn view(&self) -> AllocationView {
        AllocationView {
            worksets: self.worksets@,
            current: self.current_workset_id,
            fixed_slots: self.fixed_slots@,
            main_monitor_ids: self.main_monitor_ids@,
            live_monitors: self.live_monitors@,
            saved_monitors: self.saved_monitors@,
            sub_screen_monitor_ids: text::texts(self.sub_screen_monitor_ids@),
            previous: slots_view(self.previous_assignments@),
            with_windows: self.worksets_with_windows@,
        }
    }
}

pub struct AllocationResult {
    pub assignments: HashMap<Uuid, ParkAssignment>,
    /// The slots of the automatically parked sets alone, to be kept for the next time.
    pub new_auto_slot_assignments: HashMap<Uuid, ParkingSlotId>,
}

// ---------------------------------------------------------------------------
// What the allocation is
// ---------------------------------------------------------------------------

/// A saved monitor of that name is marked as excluded.
pub open spec fn is_excluded(saved: Seq<SavedMonitor>, name: Seq<char>) -> bool {
    exists|i: int|
        0 <= i < saved.len() && (#[trigger] saved[i]).stable_id@ == name && saved[i].excluded
}

/// The set takes part in the allocation at all.
pub open spec fn not_current(input: AllocationView, w: Workset) -> bool {
    Some(w.id) != input.current
}

/// The fixed slot that a set is designated to.
pub open spec fn fixed_slot_of(input: AllocationView, w: Workset) -> Option<FixedParkingSlot> {
    match w.parking_policy {
        ParkingPolicy::Fixed { slot_id } => {
            let slots = input.fixed_slots;
            match order::first_where(slots.len(), |i: int| slots[i].id == slot_id) {
                Some(i) => Some(slots[i]),
                None => None,
            }
        },
        _ => None,
    }
}

/// Where a fixed slot puts its set: into its cell, or minimized where the monitor is excluded or
/// not connected or has no such cell.
pub open spec fn fixed_assignment(input: AllocationView, slot: FixedParkingSlot) -> AssignmentView {
    if is_excluded(input.saved_monitors, slot.monitor_id@) {
        AssignmentView::Minimized
    } else {
        match monitor_resolution::live_monitor(input.live_monitors, slot.monitor_id@) {
            Some(m) => if slot.cell_index < slot.grid.cells() {
                AssignmentView::Fixed(
                    SlotView { monitor: slot.monitor_id@, cell: slot.cell_index as int },
                    layout_service::split_cells(m.work_area_px, slot.grid)[slot.cell_index as int],
                )
            } else {
                AssignmentView::Minimized
            },
            None => AssignmentView::Minimized,
        }
    }
}

/// The first `n` sets' designated places.
pub open spec fn fixed_places(input: AllocationView, n: nat) -> Map<Uuid, AssignmentView>
    decreases n,
{
    if n == 0 {
        Map::empty()
    } else {
        let before = fixed_places(input, (n - 1) as nat);
        let w = input.worksets[n - 1];
        match fixed_slot_of(input, w) {
            Some(slot) => if not_current(input, w) {
                before.insert(w.id, fixed_assignment(input, slot))
            } else {
                before
            },
            None => before,
        }
    }
}

/// A monitor of that name carries a fixed slot, whether or not a set is parked there.
pub open spec fn has_fixed_cell(input: AllocationView, name: Seq<char>) -> bool {
    exists|i: int|
        0 <= i < input.fixed_slots.len() && (#[trigger] input.fixed_slots[i]).monitor_id@ == name
}

/// Sets may be parked on this monitor as room allows: it is no main monitor, not excluded, in no
/// named parking area, and carries no fixed slot.
pub open spec fn is_auto_target(input: AllocationView, m: MonitorInfo) -> bool {
    &&& !monitor_resolution::names(input.main_monitor_ids, m.device_name@)
    &&& !is_excluded(input.saved_monitors, m.device_name@)
    &&& !input.sub_screen_monitor_ids.contains(m.device_name@)
    &&& !has_fixed_cell(input, m.device_name@)
}

pub open spec fn auto_targets(input: AllocationView) -> Seq<MonitorInfo> {
    input.live_monitors.filter(|m: MonitorInfo| is_auto_target(input, m))
}

/// The set is parked as room allows.
pub open spec fn is_auto_parked(input: AllocationView, w: Workset) -> bool {
    &&& not_current(input, w)
    &&& w.parking_policy == ParkingPolicy::Auto
    &&& input.with_windows.contains(w.id)
}

pub open spec fn auto_members(input: AllocationView) -> Seq<Workset> {
    input.worksets.filter(|w: Workset| is_auto_parked(input, w))
}

pub open spec fn member_keys(members: Seq<Workset>) -> Seq<(i32, u128)> {
    Seq::new(members.len(), |i: int| (members[i].sort_order, members[i].id))
}

pub open spec fn member_ids(members: Seq<Workset>) -> Seq<Uuid> {
    Seq::new(members.len(), |i: int| members[i].id)
}

/// `pool` lists the sets that are parked as room allows, by their manual order.
pub open spec fn is_pool(input: AllocationView, pool: Seq<Uuid>) -> bool {
    exists|o: Seq<usize>| #[trigger]
        order::is_stable_order(o, member_keys(auto_members(input))) && pool == order::picked(
            member_ids(auto_members(input)),
            o,
        )
}

/// How many sets a monitor takes: what its saved split says, or what its size allows.
pub open spec fn monitor_capacity(saved: Seq<SavedMonitor>, m: MonitorInfo) -> nat {
    match order::first_where(saved.len(), |i: int| saved[i].stable_id@ == m.device_name@) {
        Some(i) => match saved[i].auto_split {
            Some(split) => split.cells(),
            None => parking_cells::capacity_of(m.work_area_px),
        },
        None => parking_cells::capacity_of(m.work_area_px),
    }
}

pub open spec fn room_on(
    saved: Seq<SavedMonitor>,
    monitors: Seq<MonitorInfo>,
    held: Seq<Seq<Uuid>>,
    i: int,
) -> bool {
    held[i].len() < monitor_capacity(saved, monitors[i])
}

/// The last monitor of that name.
pub open spec fn monitor_index(monitors: Seq<MonitorInfo>, name: Seq<char>) -> Option<int>
    decreases monitors.len(),
{
    if monitors.len() == 0 {
        None
    } else if monitors.last().device_name@ == name {
        Some(monitors.len() - 1)
    } else {
        monitor_index(monitors.drop_last(), name)
    }
}

/// The monitor that a set was on before, where it is still a target with room.
pub open spec fn kept_on(
    saved: Seq<SavedMonitor>,
    monitors: Seq<MonitorInfo>,
    previous: Map<Uuid, SlotView>,
    held: Seq<Seq<Uuid>>,
    id: Uuid,
) -> Option<int> {
    if previous.contains_key(id) {
        match monitor_index(monitors, previous[id].monitor) {
            Some(i) => if room_on(saved, monitors, held, i) {
                Some(i)
            } else {
                None
            },
            None => None,
        }
    } else {
        None
    }
}

pub open spec fn put_on(held: Seq<Seq<Uuid>>, at: Option<int>, id: Uuid) -> Seq<Seq<Uuid>> {
    match at {
        Some(i) => held.update(i, held[i].push(id)),
        None => held,
    }
}

/// What each monitor holds once the first `n` sets of the pool that can stay where they were have
/// stayed.
pub open spec fn kept(
    saved: Seq<SavedMonitor>,
    monitors: Seq<MonitorInfo>,
    previous: Map<Uuid, SlotView>,
    pool: Seq<Uuid>,
    n: nat,
) -> Seq<Seq<Uuid>>
    decreases n,
{
    if n == 0 {
        Seq::new(monitors.len(), |i: int| Seq::<Uuid>::empty())
    } else {
        let before = kept(saved, monitors, previous, pool, (n - 1) as nat);
        put_on(before, kept_on(saved, monitors, previous, before, pool[n - 1]), pool[n - 1])
    }
}

/// What speaks for putting one more set on monitor `i`: the area that each set on it would have.
pub open spec fn share_on(monitors: Seq<MonitorInfo>, held: Seq<Seq<Uuid>>, i: int) -> int {
    placement::quotient(monitors[i].work_area_px.area(), (held[i].len() + 1) as int)
}

/// Monitor `i` is better than monitor `j` for one more set: an empty one before one in use, and
/// then the larger share.
pub open spec fn better_on(
    monitors: Seq<MonitorInfo>,
    held: Seq<Seq<Uuid>>,
    i: int,
    j: int,
) -> bool {
    if (held[i].len() == 0) == (held[j].len() == 0) {
        share_on(monitors, held, i) > share_on(monitors, held, j)
    } else {
        held[i].len() == 0
    }
}

/// Of the first `n` monitors with room, the best for one more set; the first of equals.
pub open spec fn best_monitor(
    saved: Seq<SavedMonitor>,
    monitors: Seq<MonitorInfo>,
    held: Seq<Seq<Uuid>>,
    n: nat,
) -> Option<int>
    decreases n,
{
    if n == 0 {
        None
    } else {
        let i = n - 1;
        let best = best_monitor(saved, monitors, held, i as nat);
        if room_on(saved, monitors, held, i) && (best is None || better_on(
            monitors,
            held,
            i,
            best->0,
        )) {
            Some(i)
        } else {
            best
        }
    }
}

/// `id` is already on one of the monitors.
pub open spec fn is_held(held: Seq<Seq<Uuid>>, id: Uuid) -> bool {
    exists|i: int| 0 <= i < held.len() && (#[trigger] held[i]).contains(id)
}

/// What each monitor holds once the first `n` sets of the pool are placed, starting from `start`.
pub open spec fn filled(
    saved: Seq<SavedMonitor>,
    monitors: Seq<MonitorInfo>,
    start: Seq<Seq<Uuid>>,
    pool: Seq<Uuid>,
    n: nat,
) -> Seq<Seq<Uuid>>
    decreases n,
{
    if n == 0 {
        start
    } else {
        let before = filled(saved, monitors, start, pool, (n - 1) as nat);
        if is_held(before, pool[n - 1]) {
            before
        } else {
            put_on(before, best_monitor(saved, monitors, before, monitors.len()), pool[n - 1])
        }
    }
}

/// Who is on which monitor in the end, in the order of arrival.
pub open spec fn joined(
    saved: Seq<SavedMonitor>,
    monitors: Seq<MonitorInfo>,
    previous: Map<Uuid, SlotView>,
    pool: Seq<Uuid>,
) -> Seq<Seq<Uuid>> {
    filled(saved, monitors, kept(saved, monitors, previous, pool, pool.len()), pool, pool.len())
}

/// Who gets which cell of which monitor in the end.
pub open spec fn occupancy(
    saved: Seq<SavedMonitor>,
    monitors: Seq<MonitorInfo>,
    previous: Map<Uuid, SlotView>,
    pool: Seq<Uuid>,
) -> Seq<Seq<Uuid>> {
    let on = joined(saved, monitors, previous, pool);
    Seq::new(
        on.len(),
        |i: int| parking_seats::seated(previous, monitors[i].device_name@, pool, on[i]),
    )
}

pub open spec fn auto_place(m: MonitorInfo, held: Seq<Uuid>, k: int) -> AssignmentView {
    AssignmentView::Auto(
        SlotView { monitor: m.device_name@, cell: k },
        parking_cells::cells_for(m.work_area_px, held.len())[k],
    )
}

/// The places of the first `k` sets on one monitor, added to `base`.
pub open spec fn places_on(
    base: Map<Uuid, AssignmentView>,
    m: MonitorInfo,
    held: Seq<Uuid>,
    k: nat,
) -> Map<Uuid, AssignmentView>
    decreases k,
{
    if k == 0 {
        base
    } else {
        places_on(base, m, held, (k - 1) as nat).insert(held[k - 1], auto_place(m, held, k - 1))
    }
}

/// The places of the sets on the first `n` monitors, added to `base`.
pub open spec fn auto_places(
    base: Map<Uuid, AssignmentView>,
    monitors: Seq<MonitorInfo>,
    held: Seq<Seq<Uuid>>,
    n: nat,
) -> Map<Uuid, AssignmentView>
    decreases n,
{
    if n == 0 {
        base
    } else {
        places_on(
            auto_places(base, monitors, held, (n - 1) as nat),
            monitors[n - 1],
            held[n - 1],
            held[n - 1].len(),
        )
    }
}

/// The slot of an automatic place.
pub open spec fn slot_of(a: AssignmentView) -> SlotView {
    match a {
        AssignmentView::Auto(slot, _) => slot,
        AssignmentView::Fixed(slot, _) => slot,
        AssignmentView::Minimized => SlotView { monitor: Seq::empty(), cell: 0 },
    }
}

/// The first `n` sets of the pool that found no room, minimized, added to `base`.
pub open spec fn overflow_places(
    base: Map<Uuid, AssignmentView>,
    held: Seq<Seq<Uuid>>,
    pool: Seq<Uuid>,
    n: nat,
) -> Map<Uuid, AssignmentView>
    decreases n,
{
    if n == 0 {
        base
    } else {
        let before = overflow_places(base, held, pool, (n - 1) as nat);
        if is_held(held, pool[n - 1]) {
            before
        } else {
            before.insert(pool[n - 1], AssignmentView::Minimized)
        }
    }
}

pub open spec fn slots_view(m: Map<Uuid, ParkingSlotId>) -> Map<Uuid, SlotView> {
    m.map_values(|s: ParkingSlotId| s@)
}

pub open spec fn places_view(m: Map<Uuid, ParkAssignment>) -> Map<Uuid, AssignmentView> {
    m.map_values(|a: ParkAssignment| a@)
}

/// Every set's place, given the pool and the target monitors in order.
pub open spec fn all_places(
    input: AllocationView,
    pool: Seq<Uuid>,
    monitors: Seq<MonitorInfo>,
) -> Map<Uuid, AssignmentView> {
    let held = occupancy(
        input.saved_monitors,
        monitors,
        input.previous,
        pool,
    );
    let fixed = fixed_places(input, input.worksets.len());
    overflow_places(auto_places(fixed, monitors, held, monitors.len()), held, pool, pool.len())
}

/// The slots of the sets that are parked as room allows.
pub open spec fn auto_slots(
    input: AllocationView,
    pool: Seq<Uuid>,
    monitors: Seq<MonitorInfo>,
) -> Map<Uuid, SlotView> {
    let held = occupancy(
        input.saved_monitors,
        monitors,
        input.previous,
        pool,
    );
    auto_places(Map::empty(), monitors, held, monitors.len()).map_values(
        |a: AssignmentView| slot_of(a),
    )
}

/// The places of all sets, and the slots of those that are parked as room allows.
pub open spec fn is_allocation(
    input: AllocationView,
    places: Map<Uuid, AssignmentView>,
    slots: Map<Uuid, SlotView>,
) -> bool {
    exists|pool: Seq<Uuid>, monitors: Seq<MonitorInfo>|
        {
            &&& #[trigger] is_pool(input, pool)
            &&& #[trigger] monitor_resolution::in_reading_order(monitors, auto_targets(input))
            &&& places == all_places(input, pool, monitors)
            &&& slots == auto_slots(input, pool, monitors)
        }
}

/// The one allocation that `input` leads to.
pub open spec fn allocation(input: AllocationView) -> (
    Map<Uuid, AssignmentView>,
    Map<Uuid, SlotView>,
) {
    choose|a: (Map<Uuid, AssignmentView>, Map<Uuid, SlotView>)| is_allocation(input, a.0, a.1)
}

proof fn lemma_pool_unique(input: AllocationView, a: Seq<Uuid>, b: Seq<Uuid>)
    requires
        is_pool(input, a),
        is_pool(input, b),
    ensures
        a == b,
{
    let keys = member_keys(auto_members(input));
    let ids = member_ids(auto_members(input));
    let x = choose|o: Seq<usize>| #[trigger]
        order::is_stable_order(o, keys) && a == order::picked(ids, o);
    let y = choose|o: Seq<usize>| #[trigger]
        order::is_stable_order(o, keys) && b == order::picked(ids, o);
    order::lemma_stable_order_unique(x, y, keys);
}

/// The same input always leads to the same allocation.
pub proof fn lemma_allocation_is(
    input: AllocationView,
    places: Map<Uuid, AssignmentView>,
    slots: Map<Uuid, SlotView>,
)
    requires
        is_allocation(input, places, slots),
    ensures
        allocation(input) == (places, slots),
{
    let a = (places, slots);
    assert(is_allocation(input, a.0, a.1));
    let b = allocation(input);
    assert(is_allocation(input, b.0, b.1));
    let (p, m) = choose|pool: Seq<Uuid>, monitors: Seq<MonitorInfo>|
        {
            &&& #[trigger] is_pool(input, pool)
            &&& #[trigger] monitor_resolution::in_reading_order(monitors, auto_targets(input))
            &&& places == all_places(input, pool, monitors)
            &&& slots == auto_slots(input, pool, monitors)
        };
    let (q, n) = choose|pool: Seq<Uuid>, monitors: Seq<MonitorInfo>|
        {
            &&& #[trigger] is_pool(input, pool)
            &&& #[trigger] monitor_resolution::in_reading_order(monitors, auto_targets(input))
            &&& b.0 == all_places(input, pool, monitors)
            &&& b.1 == auto_slots(input, pool, monitors)
        };
    lemma_pool_unique(input, p, q);
    monitor_resolution::lemma_reading_order_unique(m, n, auto_targets(input));
}

/// The cell of a place can be cut up further.
pub open spec fn place_fits(a: AssignmentView) -> bool {
    match a {
        AssignmentView::Auto(_, rect) => rect.fits(),
        AssignmentView::Fixed(_, rect) => rect.fits(),
        AssignmentView::Minimized => true,
    }
}

pub open spec fn places_fit(m: Map<Uuid, ParkAssignment>) -> bool {
    forall|id: Uuid| #[trigger] m.contains_key(id) ==> place_fits(m[id]@)
}

/// All monitors' work areas can be cut up.
pub open spec fn monitors_fit(monitors: Seq<MonitorInfo>) -> bool {
    forall|i: int| 0 <= i < monitors.len() ==> (#[trigger] monitors[i]).work_area_px.fits()
}

// ---------------------------------------------------------------------------
// Computing it
// ---------------------------------------------------------------------------

proof fn lemma_places_insert(m: Map<Uuid, ParkAssignment>, k: Uuid, v: ParkAssignment)
    ensures
        places_view(m.insert(k, v)) == places_view(m).insert(k, v@),
{
    assert(places_view(m.insert(k, v)) =~= places_view(m).insert(k, v@));
}

proof fn lemma_slots_insert(m: Map<Uuid, ParkingSlotId>, k: Uuid, v: ParkingSlotId)
    ensures
        slots_view(m.insert(k, v)) == slots_view(m).insert(k, v@),
{
    assert(slots_view(m.insert(k, v)) =~= slots_view(m).insert(k, v@));
}

fn find_fixed_slot<'a>(slots: &'a [FixedParkingSlot], slot_id: Uuid) -> (r: Option<
    &'a FixedParkingSlot,
>)
    ensures
        match r {
            Some(slot) => exists|i: int|
                order::first_where(slots@.len(), |i: int| slots@[i].id == slot_id) == Some(i)
                    && slots@[i] == *slot,
            None => order::first_where(slots@.len(), |i: int| slots@[i].id == slot_id) is None,
        },
{
    let ghost pred = |i: int| slots@[i].id == slot_id;
    let mut i: usize = 0;
    while i < slots.len()
        invariant
            i <= slots@.len(),
            pred == (|i: int| slots@[i].id == slot_id),
            forall|j: int| 0 <= j < i ==> !#[trigger] pred(j),
        decreases slots@.len() - i,
    {
        if slots[i].id == slot_id {
            proof {
                order::lemma_first_where_some(slots@.len(), pred, i as int);
            }
            return Some(&slots[i]);
        }
        i += 1;
    }
    proof {
        order::lemma_first_where_none(slots@.len(), pred);
    }
    None
}

/// Whether a saved monitor of that name is excluded.
pub fn monitor_is_excluded(saved: &[SavedMonitor], name: &str) -> (r: bool)
    ensures
        r == is_excluded(saved@, name@),
{
    let mut i: usize = 0;
    while i < saved.len()
        invariant
            i <= saved@.len(),
            forall|j: int|
                0 <= j < i ==> !((#[trigger] saved@[j]).stable_id@ == name@ && saved@[j].excluded),
        decreases saved@.len() - i,
    {
        if saved[i].excluded && text::same_text(saved[i].stable_id.as_str(), name) {
            return true;
        }
        i += 1;
    }
    false
}

/// The slot that a set is designated to, unless it is the current set.
fn designated<'a>(input: &AllocationInput<'a>, w: &Workset) -> (r: Option<&'a FixedParkingSlot>)
    ensures
        match r {
            Some(slot) => not_current(input@, *w) && fixed_slot_of(input@, *w) == Some(*slot),
            None => !not_current(input@, *w) || fixed_slot_of(input@, *w) is None,
        },
{
    let is_current = match input.current_workset_id {
        Some(id) => id == w.id,
        None => false,
    };
    if is_current {
        return None;
    }
    match w.parking_policy {
        ParkingPolicy::Fixed { slot_id } => find_fixed_slot(input.fixed_slots, slot_id),
        _ => None,
    }
}

fn place_fixed(input: &AllocationInput, slot: &FixedParkingSlot) -> (r: ParkAssignment)
    requires
        monitors_fit(input.live_monitors@),
    ensures
        r@ == fixed_assignment(input@, *slot),
        place_fits(r@),
{
    if monitor_is_excluded(input.saved_monitors, slot.monitor_id.as_str()) {
        return ParkAssignment::Minimized;
    }
    match monitor_resolution::find_live_monitor_by_stable_id(
        input.live_monitors,
        slot.monitor_id.as_str(),
    ) {
        None => ParkAssignment::Minimized,
        Some(monitor) => {
            let cells = layout_service::auto_split_cells(monitor.work_area_px, slot.grid);
            if slot.cell_index < cells.len() {
                ParkAssignment::FixedSlot {
                    slot: ParkingSlotId {
                        monitor_id: slot.monitor_id.clone(),
                        cell_index: slot.cell_index,
                    },
                    rect: cells[slot.cell_index],
                }
            } else {
                ParkAssignment::Minimized
            }
        },
    }
}

/// The designated places.
fn place_designated(input: &AllocationInput) -> (r: HashMap<Uuid, ParkAssignment>)
    requires
        monitors_fit(input.live_monitors@),
    ensures
        places_view(r@) == fixed_places(input@, input.worksets@.len()),
        places_fit(r@),
{
    let mut places: HashMap<Uuid, ParkAssignment> = HashMap::new();
    let mut i: usize = 0;
    assert(places_view(places@) =~= Map::<Uuid, AssignmentView>::empty());
    while i < input.worksets.len()
        invariant
            i <= input.worksets@.len(),
            monitors_fit(input.live_monitors@),
            places_view(places@) == fixed_places(input@, i as nat),
            places_fit(places@),
        decreases input.worksets@.len() - i,
    {
        if let Some(slot) = designated(input, &input.worksets[i]) {
            let place = place_fixed(input, slot);
            proof {
                lemma_places_insert(places@, input.worksets@[i as int].id, place);
            }
            places.insert(input.worksets[i].id, place);
        }
        i += 1;
    }
    places
}

fn carries_fixed_slot(slots: &[FixedParkingSlot], name: &str) -> (r: bool)
    ensures
        r == exists|i: int| 0 <= i < slots@.len() && (#[trigger] slots@[i]).monitor_id@ == name@,
{
    let mut i: usize = 0;
    while i < slots.len()
        invariant
            i <= slots@.len(),
            forall|j: int| 0 <= j < i ==> (#[trigger] slots@[j]).monitor_id@ != name@,
        decreases slots@.len() - i,
    {
        if text::same_text(slots[i].monitor_id.as_str(), name) {
            return true;
        }
        i += 1;
    }
    false
}

fn select_targets(input: &AllocationInput) -> (r: Vec<MonitorInfo>)
    ensures
        r@ == auto_targets(input@),
{
    let ghost keep = |m: MonitorInfo| is_auto_target(input@, m);
    let mut out: Vec<MonitorInfo> = Vec::new();
    let mut i: usize = 0;
    proof {
        reveal(Seq::filter);
    }
    while i < input.live_monitors.len()
        invariant
            i <= input.live_monitors@.len(),
            keep == (|m: MonitorInfo| is_auto_target(input@, m)),
            out@ == input.live_monitors@.take(i as int).filter(keep),
        decreases input.live_monitors@.len() - i,
    {
        proof {
            reveal(Seq::filter);
            assert(input.live_monitors@.take(i + 1).drop_last() =~= input.live_monitors@.take(
                i as int,
            ));
        }
        let m = &input.live_monitors[i];
        let name = m.device_name.as_str();
        proof {
            monitor_resolution::lemma_names_are_texts(
                input.sub_screen_monitor_ids@,
                m.device_name@,
            );
        }
        if !monitor_resolution::is_named(input.main_monitor_ids, name) && !monitor_is_excluded(
            input.saved_monitors,
            name,
        ) && !monitor_resolution::is_named(input.sub_screen_monitor_ids, name)
            && !carries_fixed_slot(input.fixed_slots, name) {
            out.push(m.clone());
        }
        i += 1;
    }
    assert(input.live_monitors@.take(input.live_monitors@.len() as int)
        =~= input.live_monitors@);
    out
}

fn select_pool(input: &AllocationInput) -> (r: Vec<Uuid>)
    ensures
        is_pool(input@, r@),
{
    let ghost keep = |w: Workset| is_auto_parked(input@, w);
    let mut keys: Vec<(i32, u128)> = Vec::new();
    let mut i: usize = 0;
    proof {
        reveal(Seq::filter);
        assert(keys@ =~= member_keys(input.worksets@.take(0).filter(keep)));
    }
    while i < input.worksets.len()
        invariant
            i <= input.worksets@.len(),
            keep == (|w: Workset| is_auto_parked(input@, w)),
            keys@ == member_keys(input.worksets@.take(i as int).filter(keep)),
        decreases input.worksets@.len() - i,
    {
        let ghost before = input.worksets@.take(i as int).filter(keep);
        proof {
            reveal(Seq::filter);
            assert(input.worksets@.take(i + 1).drop_last() =~= input.worksets@.take(i as int));
        }
        let w = &input.worksets[i];
        let is_current = match input.current_workset_id {
            Some(id) => id == w.id,
            None => false,
        };
        if !is_current && w.parking_policy == ParkingPolicy::Auto
            && input.worksets_with_windows.contains(&w.id) {
            keys.push((w.sort_order, w.id));
            assert(keys@ =~= member_keys(before.push(*w)));
        }
        i += 1;
    }
    assert(input.worksets@.take(input.worksets@.len() as int) =~= input.worksets@);
    let o = order::stable_order(&keys);
    let mut pool: Vec<Uuid> = Vec::new();
    let ghost ids = member_ids(auto_members(input@));
    let mut k: usize = 0;
    while k < o.len()
        invariant
            k <= o@.len(),
            o@.len() == keys@.len(),
            keys@ == member_keys(auto_members(input@)),
            ids == member_ids(auto_members(input@)),
            forall|a: int| 0 <= a < o@.len() ==> (#[trigger] o@[a]) < keys@.len(),
            pool@ == order::picked(ids, o@).take(k as int),
        decreases o@.len() - k,
    {
        let at: usize = o[k];
        pool.push(keys[at].1);
        k += 1;
    }
    assert(pool@ =~= order::picked(ids, o@));
    pool
}

pub proof fn lemma_capacity_bound(saved: Seq<SavedMonitor>, m: MonitorInfo)
    ensures
        1 <= monitor_capacity(saved, m) <= 6,
{
}

fn capacity_on(saved: &[SavedMonitor], m: &MonitorInfo) -> (r: usize)
    ensures
        r == monitor_capacity(saved@, *m),
        1 <= r <= 6,
{
    let ghost pred = |i: int| saved@[i].stable_id@ == m.device_name@;
    let mut i: usize = 0;
    while i < saved.len()
        invariant
            i <= saved@.len(),
            pred == (|i: int| saved@[i].stable_id@ == m.device_name@),
            forall|j: int| 0 <= j < i ==> !#[trigger] pred(j),
        decreases saved@.len() - i,
    {
        if saved[i].stable_id == m.device_name {
            proof {
                order::lemma_first_where_some(saved@.len(), pred, i as int);
            }
            return match saved[i].auto_split {
                Some(split) => split.cell_count(),
                None => parking_cells::screen_capacity(m.work_area_px),
            };
        }
        i += 1;
    }
    proof {
        order::lemma_first_where_none(saved@.len(), pred);
    }
    parking_cells::screen_capacity(m.work_area_px)
}

pub open spec fn ids_view(held: Seq<Vec<Uuid>>) -> Seq<Seq<Uuid>> {
    Seq::new(held.len(), |i: int| held[i]@)
}

/// No monitor holds more sets than it takes.
pub open spec fn within_capacity(
    saved: Seq<SavedMonitor>,
    monitors: Seq<MonitorInfo>,
    held: Seq<Seq<Uuid>>,
) -> bool {
    &&& held.len() == monitors.len()
    &&& forall|i: int|
        0 <= i < held.len() ==> (#[trigger] held[i]).len() <= monitor_capacity(saved, monitors[i])
}

pub proof fn lemma_monitor_index(monitors: Seq<MonitorInfo>, name: Seq<char>)
    ensures
        match monitor_index(monitors, name) {
            Some(i) => 0 <= i < monitors.len() && monitors[i].device_name@ == name,
            None => forall|i: int|
                0 <= i < monitors.len() ==> (#[trigger] monitors[i]).device_name@ != name,
        },
    decreases monitors.len(),
{
    if monitors.len() > 0 {
        let rest = monitors.drop_last();
        lemma_monitor_index(rest, name);
        if monitors.last().device_name@ != name {
            if monitor_index(rest, name) is None {
                assert forall|i: int| 0 <= i < monitors.len() implies (
                #[trigger] monitors[i]).device_name@ != name by {
                    if i < rest.len() {
                        assert(rest[i].device_name@ != name);
                    }
                }
            }
        }
    }
}

pub proof fn lemma_best_monitor(
    saved: Seq<SavedMonitor>,
    monitors: Seq<MonitorInfo>,
    held: Seq<Seq<Uuid>>,
    n: nat,
)
    ensures
        match best_monitor(saved, monitors, held, n) {
            Some(b) => {
                &&& 0 <= b < n
                &&& room_on(saved, monitors, held, b)
                &&& forall|j: int|
                    0 <= j < n && room_on(saved, monitors, held, j) ==> !better_on(
                        monitors,
                        held,
                        j,
                        b,
                    )
            },
            None => forall|j: int| 0 <= j < n ==> !room_on(saved, monitors, held, j),
        },
    decreases n,
{
    if n > 0 {
        lemma_best_monitor(saved, monitors, held, (n - 1) as nat);
    }
}

proof fn lemma_put_within(
    saved: Seq<SavedMonitor>,
    monitors: Seq<MonitorInfo>,
    held: Seq<Seq<Uuid>>,
    at: Option<int>,
    id: Uuid,
)
    requires
        within_capacity(saved, monitors, held),
        at matches Some(i) ==> 0 <= i < monitors.len() && room_on(saved, monitors, held, i),
    ensures
        within_capacity(saved, monitors, put_on(held, at, id)),
{
}

pub proof fn lemma_kept_within(
    saved: Seq<SavedMonitor>,
    monitors: Seq<MonitorInfo>,
    previous: Map<Uuid, SlotView>,
    pool: Seq<Uuid>,
    n: nat,
)
    ensures
        within_capacity(saved, monitors, kept(saved, monitors, previous, pool, n)),
    decreases n,
{
    if n > 0 {
        lemma_kept_within(saved, monitors, previous, pool, (n - 1) as nat);
        let before = kept(saved, monitors, previous, pool, (n - 1) as nat);
        let id = pool[n - 1];
        if previous.contains_key(id) {
            lemma_monitor_index(monitors, previous[id].monitor);
        }
        lemma_put_within(saved, monitors, before, kept_on(saved, monitors, previous, before, id), id);
    }
}

pub proof fn lemma_filled_within(
    saved: Seq<SavedMonitor>,
    monitors: Seq<MonitorInfo>,
    start: Seq<Seq<Uuid>>,
    pool: Seq<Uuid>,
    n: nat,
)
    requires
        within_capacity(saved, monitors, start),
    ensures
        within_capacity(saved, monitors, filled(saved, monitors, start, pool, n)),
    decreases n,
{
    if n > 0 {
        lemma_filled_within(saved, monitors, start, pool, (n - 1) as nat);
        let before = filled(saved, monitors, start, pool, (n - 1) as nat);
        lemma_best_monitor(saved, monitors, before, monitors.len());
        lemma_put_within(
            saved,
            monitors,
            before,
            best_monitor(saved, monitors, before, monitors.len()),
            pool[n - 1],
        );
    }
}

fn index_of_monitor(monitors: &Vec<MonitorInfo>, name: &str) -> (r: Option<usize>)
    ensures
        match r {
            Some(i) => monitor_index(monitors@, name@) == Some(i as int) && i < monitors@.len(),
            None => monitor_index(monitors@, name@) is None,
        },
{
    let mut k: usize = monitors.len();
    assert(monitors@.take(k as int) =~= monitors@);
    while k > 0
        invariant
            k <= monitors@.len(),
            monitor_index(monitors@, name@) == monitor_index(monitors@.take(k as int), name@),
        decreases k,
    {
        assert(monitors@.take(k as int).drop_last() =~= monitors@.take(k - 1));
        assert(monitors@.take(k as int).last() == monitors@[k - 1]);
        if text::same_text(monitors[k - 1].device_name.as_str(), name) {
            return Some(k - 1);
        }
        k -= 1;
    }
    None
}

/// The sets that can stay on the monitor that they were on before.
fn keep_previous(
    saved: &[SavedMonitor],
    monitors: &Vec<MonitorInfo>,
    previous: &HashMap<Uuid, ParkingSlotId>,
    pool: &Vec<Uuid>,
) -> (r: Vec<Vec<Uuid>>)
    ensures
        ids_view(r@) == kept(saved@, monitors@, slots_view(previous@), pool@, pool@.len()),
{
    let ghost pv = slots_view(previous@);
    let mut held: Vec<Vec<Uuid>> = Vec::new();
    let mut s: usize = 0;
    while s < monitors.len()
        invariant
            s <= monitors@.len(),
            held@.len() == s,
            forall|i: int| 0 <= i < s ==> (#[trigger] held@[i])@ == Seq::<Uuid>::empty(),
        decreases monitors@.len() - s,
    {
        held.push(Vec::new());
        s += 1;
    }
    assert(ids_view(held@) =~= kept(saved@, monitors@, pv, pool@, 0));
    let mut n: usize = 0;
    while n < pool.len()
        invariant
            n <= pool@.len(),
            pv == slots_view(previous@),
            held@.len() == monitors@.len(),
            ids_view(held@) == kept(saved@, monitors@, pv, pool@, n as nat),
        decreases pool@.len() - n,
    {
        let ghost hv = ids_view(held@);
        let id: u128 = pool[n];
        if let Some(slot) = previous.get(&id) {
            assert(pv[id] == slot@);
            if let Some(i) = index_of_monitor(monitors, slot.monitor_id.as_str()) {
                assert(hv[i as int] == held@[i as int]@);
                if held[i].len() < capacity_on(saved, &monitors[i]) {
                    held[i].push(id);
                    assert(ids_view(held@) =~= hv.update(i as int, hv[i as int].push(id)));
                }
            }
        }
        n += 1;
    }
    held
}

fn is_placed(held: &Vec<Vec<Uuid>>, id: Uuid) -> (r: bool)
    ensures
        r == is_held(ids_view(held@), id),
{
    let ghost hv = ids_view(held@);
    let mut i: usize = 0;
    while i < held.len()
        invariant
            i <= held@.len(),
            hv == ids_view(held@),
            forall|j: int| 0 <= j < i ==> !(#[trigger] hv[j]).contains(id),
        decreases held@.len() - i,
    {
        assert(hv[i as int] == held@[i as int]@);
        let mut k: usize = 0;
        while k < held[i].len()
            invariant
                i < held@.len(),
                k <= held@[i as int]@.len(),
                hv == ids_view(held@),
                hv[i as int] == held@[i as int]@,
                forall|j: int| 0 <= j < k ==> held@[i as int]@[j] != id,
            decreases held@[i as int]@.len() - k,
        {
            if held[i][k] == id {
                assert(hv[i as int].contains(id));
                return true;
            }
            k += 1;
        }
        i += 1;
    }
    false
}

fn share(m: &MonitorInfo, count: usize) -> (r: i64)
    requires
        count <= 6,
    ensures
        r == placement::quotient(m.work_area_px.area(), count + 1),
{
    let area: i64 = m.work_area_px.area_wide();
    area / (count as i64 + 1)
}

fn pick_monitor(
    saved: &[SavedMonitor],
    monitors: &Vec<MonitorInfo>,
    held: &Vec<Vec<Uuid>>,
) -> (r: Option<usize>)
    requires
        within_capacity(saved@, monitors@, ids_view(held@)),
    ensures
        match r {
            Some(i) => best_monitor(saved@, monitors@, ids_view(held@), monitors@.len()) == Some(
                i as int,
            ) && i < monitors@.len(),
            None => best_monitor(saved@, monitors@, ids_view(held@), monitors@.len()) is None,
        },
{
    let ghost hv = ids_view(held@);
    let mut best: Option<usize> = None;
    let mut i: usize = 0;
    while i < monitors.len()
        invariant
            i <= monitors@.len(),
            hv == ids_view(held@),
            within_capacity(saved@, monitors@, hv),
            match best {
                Some(b) => best_monitor(saved@, monitors@, hv, i as nat) == Some(b as int) && b < i,
                None => best_monitor(saved@, monitors@, hv, i as nat) is None,
            },
        decreases monitors@.len() - i,
    {
        assert(hv[i as int] == held@[i as int]@);
        proof {
            lemma_capacity_bound(saved@, monitors@[i as int]);
        }
        if held[i].len() < capacity_on(saved, &monitors[i]) {
            let better = match best {
                None => true,
                Some(b) => {
                    assert(hv[b as int] == held@[b as int]@);
                    proof {
                        lemma_capacity_bound(saved@, monitors@[b as int]);
                    }
                    let fresh_i = held[i].len() == 0;
                    let fresh_b = held[b].len() == 0;
                    if fresh_i == fresh_b {
                        share(&monitors[i], held[i].len()) > share(&monitors[b], held[b].len())
                    } else {
                        fresh_i
                    }
                },
            };
            if better {
                best = Some(i);
            }
        }
        i += 1;
    }
    best
}

/// Places the rest of the pool, one set after the other.
fn fill_rest(
    saved: &[SavedMonitor],
    monitors: &Vec<MonitorInfo>,
    start: Vec<Vec<Uuid>>,
    pool: &Vec<Uuid>,
) -> (r: Vec<Vec<Uuid>>)
    requires
        within_capacity(saved@, monitors@, ids_view(start@)),
    ensures
        ids_view(r@) == filled(saved@, monitors@, ids_view(start@), pool@, pool@.len()),
{
    let ghost sv = ids_view(start@);
    let mut held = start;
    let mut n: usize = 0;
    while n < pool.len()
        invariant
            n <= pool@.len(),
            within_capacity(saved@, monitors@, sv),
            ids_view(held@) == filled(saved@, monitors@, sv, pool@, n as nat),
        decreases pool@.len() - n,
    {
        let ghost hv = ids_view(held@);
        proof {
            lemma_filled_within(saved@, monitors@, sv, pool@, n as nat);
        }
        if !is_placed(&held, pool[n]) {
            if let Some(i) = pick_monitor(saved, monitors, &held) {
                assert(hv.len() == monitors@.len());
                held[i].push(pool[n]);
                assert(ids_view(held@) =~= hv.update(
                    i as int,
                    hv[i as int].push(pool@[n as int]),
                ));
            }
        }
        n += 1;
    }
    held
}

/// Deals the cells of every monitor out to the sets on it.
fn seat_all(
    previous: &HashMap<Uuid, ParkingSlotId>,
    monitors: &Vec<MonitorInfo>,
    pool: &Vec<Uuid>,
    on: &Vec<Vec<Uuid>>,
) -> (r: Vec<Vec<Uuid>>)
    requires
        on@.len() == monitors@.len(),
    ensures
        ids_view(r@) == Seq::new(
            on@.len(),
            |i: int|
                parking_seats::seated(
                    slots_view(previous@),
                    monitors@[i].device_name@,
                    pool@,
                    on@[i]@,
                ),
        ),
{
    let ghost all = Seq::new(
        on@.len(),
        |i: int|
            parking_seats::seated(
                slots_view(previous@),
                monitors@[i].device_name@,
                pool@,
                on@[i]@,
            ),
    );
    let mut out: Vec<Vec<Uuid>> = Vec::new();
    let mut i: usize = 0;
    while i < on.len()
        invariant
            i <= on@.len() == monitors@.len(),
            all == Seq::new(
                on@.len(),
                |i: int|
                    parking_seats::seated(
                        slots_view(previous@),
                        monitors@[i].device_name@,
                        pool@,
                        on@[i]@,
                    ),
            ),
            out@.len() == i,
            forall|j: int| 0 <= j < i ==> (#[trigger] out@[j])@ == all[j],
        decreases on@.len() - i,
    {
        out.push(
            parking_seats::seat(previous, monitors[i].device_name.as_str(), pool, &on[i]),
        );
        i += 1;
    }
    assert(ids_view(out@) =~= all);
    out
}

/// Decides where every set but the current one parks.
///
/// A designated set goes to its cell, or is minimized where that cell's monitor is gone or
/// excluded. A monitor with a fixed slot is left to that slot, whether or not its set is parked
/// right now. The other sets that have windows are dealt out over the remaining monitors, in their
/// manual order and the monitors in reading order: a set stays on the monitor it was on where
/// that has room, an empty monitor is lit up before one in use is shared, and whoever finds no
/// room is minimized. On its monitor a set keeps the cell it held where that still exists; the
/// other cells go to the rest, in their manual order.
pub fn allocate_parking(input: &AllocationInput) -> (r: AllocationResult)
    requires
        monitors_fit(input.live_monitors@),
    ensures
        is_allocation(
            input@,
            places_view(r.assignments@),
            slots_view(r.new_auto_slot_assignments@),
        ),
        allocation(input@) == (
            places_view(r.assignments@),
            slots_view(r.new_auto_slot_assignments@),
        ),
        places_fit(r.assignments@),
{
    let mut places = place_designated(input);
    let pool = select_pool(input);
    let targets = select_targets(input);
    proof {
        lemma_targets_fit(input@);
    }
    let mut monitors = targets;
    let ghost unsorted = monitors@;
    monitor_resolution::sort_monitors_reading_order(&mut monitors);
    proof {
        lemma_sorted_fit(monitors@, unsorted);
        lemma_kept_within(
            input.saved_monitors@,
            monitors@,
            input@.previous,
            pool@,
            pool@.len(),
        );
    }
    let stayed = keep_previous(
        input.saved_monitors,
        &monitors,
        input.previous_assignments,
        &pool,
    );
    let ghost start = ids_view(stayed@);
    let on = fill_rest(input.saved_monitors, &monitors, stayed, &pool);
    proof {
        lemma_filled_within(input.saved_monitors@, monitors@, start, pool@, pool@.len());
        lemma_occupancy(input.saved_monitors@, monitors@, input@.previous, pool@);
    }
    let held = seat_all(input.previous_assignments, &monitors, &pool, &on);
    let ghost hv = ids_view(held@);
    proof {
        let ov = ids_view(on@);
        assert forall|i: int| 0 <= i < ov.len() implies (#[trigger] ov[i]) == on@[i]@ by {}
        assert(hv =~= occupancy(input.saved_monitors@, monitors@, input@.previous, pool@));
    }
    let ghost fixed = fixed_places(input@, input.worksets@.len());
    let mut slots: HashMap<Uuid, ParkingSlotId> = HashMap::new();
    let ghost none = Map::<Uuid, AssignmentView>::empty();
    proof {
        assert(slots_view(slots@) =~= none.map_values(|a: AssignmentView| slot_of(a)));
    }
    let mut i: usize = 0;
    while i < monitors.len()
        invariant
            i <= monitors@.len(),
            hv == ids_view(held@),
            held@.len() == monitors@.len(),
            monitors_fit(monitors@),
            within_capacity(input.saved_monitors@, monitors@, hv),
            none == Map::<Uuid, AssignmentView>::empty(),
            places_view(places@) == auto_places(fixed, monitors@, hv, i as nat),
            places_fit(places@),
            slots_view(slots@) == auto_places(none, monitors@, hv, i as nat).map_values(
                |a: AssignmentView| slot_of(a),
            ),
        decreases monitors@.len() - i,
    {
        assert(hv[i as int] == held@[i as int]@);
        proof {
            lemma_capacity_bound(input.saved_monitors@, monitors@[i as int]);
            parking_cells::lemma_cells_for_len(
                monitors@[i as int].work_area_px,
                hv[i as int].len(),
            );
        }
        let count: usize = held[i].len();
        let cells = parking_cells::subdivide_for_count(monitors[i].work_area_px, count);
        let ghost base = places_view(places@);
        let ghost slot_base = auto_places(none, monitors@, hv, i as nat);
        let mut k: usize = 0;
        while k < count
            invariant
                i < monitors@.len(),
                hv == ids_view(held@),
                held@.len() == monitors@.len(),
                hv[i as int] == held@[i as int]@,
                count == held@[i as int]@.len(),
                count <= cells@.len(),
                k <= count,
                places_fit(places@),
                forall|c: int| 0 <= c < cells@.len() ==> (#[trigger] cells@[c]).fits(),
                cells@ == parking_cells::cells_for(
                    monitors@[i as int].work_area_px,
                    hv[i as int].len(),
                ),
                places_view(places@) == places_on(
                    base,
                    monitors@[i as int],
                    hv[i as int],
                    k as nat,
                ),
                slots_view(slots@) == places_on(
                    slot_base,
                    monitors@[i as int],
                    hv[i as int],
                    k as nat,
                ).map_values(|a: AssignmentView| slot_of(a)),
            decreases count - k,
        {
            let id: u128 = held[i][k];
            let slot = ParkingSlotId { monitor_id: monitors[i].device_name.clone(), cell_index: k };
            let place = ParkAssignment::AutoSlot { slot: slot.clone(), rect: cells[k] };
            proof {
                lemma_slots_insert(slots@, id, slot);
                lemma_places_insert(places@, id, place);
                let m = monitors@[i as int];
                let h = hv[i as int];
                assert(place@ == auto_place(m, h, k as int));
                let so_far = places_on(slot_base, m, h, k as nat);
                let f = |a: AssignmentView| slot_of(a);
                assert(so_far.insert(id, place@).map_values(f) =~= so_far.map_values(f).insert(
                    id,
                    slot@,
                ));
            }
            slots.insert(id, slot);
            places.insert(id, place);
            k += 1;
        }
        i += 1;
    }
    let ghost base = places_view(places@);
    let mut n: usize = 0;
    while n < pool.len()
        invariant
            n <= pool@.len(),
            hv == ids_view(held@),
            places_view(places@) == overflow_places(base, hv, pool@, n as nat),
            places_fit(places@),
        decreases pool@.len() - n,
    {
        if !is_placed(&held, pool[n]) {
            let ghost before = places@;
            places.insert(pool[n], ParkAssignment::Minimized);
            proof {
                lemma_places_insert(before, pool@[n as int], ParkAssignment::Minimized);
            }
        }
        n += 1;
    }
    proof {
        assert(is_pool(input@, pool@));
        assert(monitor_resolution::in_reading_order(monitors@, auto_targets(input@)));
        lemma_allocation_is(input@, places_view(places@), slots_view(slots@));
    }
    AllocationResult { assignments: places, new_auto_slot_assignments: slots }
}

proof fn lemma_targets_fit(input: AllocationView)
    requires
        monitors_fit(input.live_monitors),
    ensures
        monitors_fit(auto_targets(input)),
{
    let keep = |m: MonitorInfo| is_auto_target(input, m);
    let live = input.live_monitors;
    let kept = live.filter(keep);
    order::lemma_filter_members(live, keep);
    assert forall|i: int| 0 <= i < kept.len() implies (#[trigger] kept[i]).work_area_px.fits() by {
        assert(live.contains(kept[i]));
    }
}

proof fn lemma_sorted_fit(sorted: Seq<MonitorInfo>, monitors: Seq<MonitorInfo>)
    requires
        monitors_fit(monitors),
        monitor_resolution::in_reading_order(sorted, monitors),
    ensures
        monitors_fit(sorted),
{
    let o = choose|o: Seq<usize>| #[trigger]
        order::is_stable_order(o, monitor_resolution::reading_keys(monitors)) && sorted
            == order::picked(monitors, o);
    assert forall|i: int| 0 <= i < sorted.len() implies (#[trigger] sorted[i]).work_area_px.fits() by {
        assert(sorted[i] == monitors[o[i] as int]);
    }
}

// ---------------------------------------------------------------------------
// What holds of every allocation
// ---------------------------------------------------------------------------

pub open spec fn distinct_names(monitors: Seq<MonitorInfo>) -> bool {
    forall|i: int, j: int|
        0 <= i < j < monitors.len() ==> (#[trigger] monitors[i]).device_name@ != (
        #[trigger] monitors[j]).device_name@
}

proof fn lemma_filter_distinct(monitors: Seq<MonitorInfo>, keep: spec_fn(MonitorInfo) -> bool)
    requires
        distinct_names(monitors),
    ensures
        distinct_names(monitors.filter(keep)),
    decreases monitors.len(),
{
    reveal(Seq::filter);
    if monitors.len() > 0 {
        let rest = monitors.drop_last();
        assert(distinct_names(rest)) by {
            assert forall|i: int, j: int| 0 <= i < j < rest.len() implies (
            #[trigger] rest[i]).device_name@ != (#[trigger] rest[j]).device_name@ by {
                assert(monitors[i].device_name@ != monitors[j].device_name@);
            }
        }
        lemma_filter_distinct(rest, keep);
        order::lemma_filter_members(rest, keep);
        let before = rest.filter(keep);
        let now = monitors.filter(keep);
        assert forall|i: int, j: int| 0 <= i < j < now.len() implies (
        #[trigger] now[i]).device_name@ != (#[trigger] now[j]).device_name@ by {
            if j < before.len() {
                assert(before[i].device_name@ != before[j].device_name@);
            } else {
                assert(rest.contains(before[i]));
                let k = choose|k: int| 0 <= k < rest.len() && rest[k] == before[i];
                assert(monitors[k].device_name@ != monitors[monitors.len() - 1].device_name@);
            }
        }
    }
}

/// The target monitors in order are connected targets, each once.
pub proof fn lemma_targets_in_order(input: AllocationView, monitors: Seq<MonitorInfo>)
    requires
        monitor_resolution::in_reading_order(monitors, auto_targets(input)),
    ensures
        forall|i: int|
            0 <= i < monitors.len() ==> is_auto_target(input, #[trigger] monitors[i])
                && input.live_monitors.contains(monitors[i]),
        distinct_names(input.live_monitors) ==> distinct_names(monitors),
{
    let keep = |m: MonitorInfo| is_auto_target(input, m);
    let live = input.live_monitors;
    let targets = auto_targets(input);
    order::lemma_filter_members(live, keep);
    let keys = monitor_resolution::reading_keys(targets);
    let o = choose|o: Seq<usize>| #[trigger]
        order::is_stable_order(o, keys) && monitors == order::picked(targets, o);
    assert forall|i: int| 0 <= i < monitors.len() implies is_auto_target(
        input,
        #[trigger] monitors[i],
    ) && live.contains(monitors[i]) by {
        assert(monitors[i] == targets[o[i] as int]);
    }
    if distinct_names(live) {
        lemma_filter_distinct(live, keep);
        order::lemma_stable_order_distinct(o, keys);
        assert forall|i: int, j: int| 0 <= i < j < monitors.len() implies (
        #[trigger] monitors[i]).device_name@ != (#[trigger] monitors[j]).device_name@ by {
            assert(monitors[i] == targets[o[i] as int] && monitors[j] == targets[o[j] as int]);
            assert(o[i] != o[j]);
            if o[i] < o[j] {
                assert(targets[o[i] as int].device_name@ != targets[o[j] as int].device_name@);
            } else {
                assert(targets[o[j] as int].device_name@ != targets[o[i] as int].device_name@);
            }
        }
    }
}

/// `id` holds the cell `k` of monitor `i`.
pub open spec fn holds_cell(
    monitors: Seq<MonitorInfo>,
    held: Seq<Seq<Uuid>>,
    id: Uuid,
    place: AssignmentView,
    i: int,
    k: int,
) -> bool {
    &&& 0 <= i < held.len()
    &&& 0 <= k < held[i].len()
    &&& held[i][k] == id
    &&& place == auto_place(monitors[i], held[i], k)
}

proof fn lemma_places_on(
    base: Map<Uuid, AssignmentView>,
    m: MonitorInfo,
    held: Seq<Uuid>,
    n: nat,
    id: Uuid,
)
    requires
        n <= held.len(),
        places_on(base, m, held, n).contains_key(id),
    ensures
        (base.contains_key(id) && places_on(base, m, held, n)[id] == base[id]) || exists|k: int|
            0 <= k < n && held[k] == id && places_on(base, m, held, n)[id] == #[trigger] auto_place(
                m,
                held,
                k,
            ),
    decreases n,
{
    if n > 0 {
        if held[n - 1] == id {
            assert(places_on(base, m, held, n)[id] == auto_place(m, held, n - 1));
        } else {
            lemma_places_on(base, m, held, (n - 1) as nat, id);
        }
    }
}

/// Whoever has an automatic place holds that very cell.
pub proof fn lemma_auto_places(
    base: Map<Uuid, AssignmentView>,
    monitors: Seq<MonitorInfo>,
    held: Seq<Seq<Uuid>>,
    n: nat,
    id: Uuid,
)
    requires
        n <= held.len(),
        auto_places(base, monitors, held, n).contains_key(id),
    ensures
        (base.contains_key(id) && auto_places(base, monitors, held, n)[id] == base[id]) || exists|
            i: int,
            k: int,
        |
            i < n && #[trigger] holds_cell(
                monitors,
                held,
                id,
                auto_places(base, monitors, held, n)[id],
                i,
                k,
            ),
    decreases n,
{
    if n > 0 {
        let before = auto_places(base, monitors, held, (n - 1) as nat);
        let m = monitors[n - 1];
        let h = held[n - 1];
        lemma_places_on(before, m, h, h.len(), id);
        let place = auto_places(base, monitors, held, n)[id];
        if before.contains_key(id) && place == before[id] {
            lemma_auto_places(base, monitors, held, (n - 1) as nat, id);
            if !(base.contains_key(id) && place == base[id]) {
                let (i, k) = choose|i: int, k: int|
                    i < n - 1 && #[trigger] holds_cell(monitors, held, id, before[id], i, k);
                assert(holds_cell(monitors, held, id, place, i, k));
            }
        } else {
            let k = choose|k: int|
                0 <= k < h.len() && h[k] == id && place == #[trigger] auto_place(m, h, k);
            assert(holds_cell(monitors, held, id, place, n - 1, k));
        }
    }
}

proof fn lemma_places_on_has(
    base: Map<Uuid, AssignmentView>,
    m: MonitorInfo,
    held: Seq<Uuid>,
    n: nat,
)
    requires
        n <= held.len(),
    ensures
        forall|id: Uuid| base.contains_key(id) ==> #[trigger] places_on(base, m, held, n).contains_key(id),
        forall|k: int|
            0 <= k < n ==> places_on(base, m, held, n).contains_key(#[trigger] held[k]),
    decreases n,
{
    if n > 0 {
        lemma_places_on_has(base, m, held, (n - 1) as nat);
        assert forall|id: Uuid| base.contains_key(id) implies #[trigger] places_on(
            base,
            m,
            held,
            n,
        ).contains_key(id) by {
            assert(places_on(base, m, held, (n - 1) as nat).contains_key(id));
        }
    }
}

pub proof fn lemma_auto_places_has(
    base: Map<Uuid, AssignmentView>,
    monitors: Seq<MonitorInfo>,
    held: Seq<Seq<Uuid>>,
    n: nat,
)
    requires
        n <= held.len(),
    ensures
        forall|id: Uuid|
            base.contains_key(id) ==> #[trigger] auto_places(base, monitors, held, n).contains_key(
                id,
            ),
        forall|i: int, k: int|
            0 <= i < n && 0 <= k < held[i].len() ==> auto_places(
                base,
                monitors,
                held,
                n,
            ).contains_key(#[trigger] held[i][k]),
    decreases n,
{
    if n > 0 {
        let before = auto_places(base, monitors, held, (n - 1) as nat);
        lemma_auto_places_has(base, monitors, held, (n - 1) as nat);
        lemma_places_on_has(before, monitors[n - 1], held[n - 1], held[n - 1].len());
        assert forall|i: int, k: int| 0 <= i < n && 0 <= k < held[i].len() implies auto_places(
            base,
            monitors,
            held,
            n,
        ).contains_key(#[trigger] held[i][k]) by {
            if i < n - 1 {
                assert(before.contains_key(held[i][k]));
            }
        }
    }
}

/// Occupants come from the pool.
pub open spec fn only_pool(held: Seq<Seq<Uuid>>, pool: Seq<Uuid>) -> bool {
    forall|i: int, k: int|
        0 <= i < held.len() && 0 <= k < held[i].len() ==> pool.contains(#[trigger] held[i][k])
}

proof fn lemma_put_only_pool(held: Seq<Seq<Uuid>>, at: Option<int>, id: Uuid, pool: Seq<Uuid>)
    requires
        only_pool(held, pool),
        pool.contains(id),
        at matches Some(i) ==> 0 <= i < held.len(),
    ensures
        only_pool(put_on(held, at, id), pool),
{
    let now = put_on(held, at, id);
    assert forall|i: int, k: int| 0 <= i < now.len() && 0 <= k < now[i].len() implies pool.contains(
        #[trigger] now[i][k],
    ) by {
        if at == Some(i) && k == held[i].len() {
        } else {
            assert(now[i][k] == held[i][k]);
        }
    }
}

proof fn lemma_kept_only_pool(
    saved: Seq<SavedMonitor>,
    monitors: Seq<MonitorInfo>,
    previous: Map<Uuid, SlotView>,
    pool: Seq<Uuid>,
    n: nat,
)
    requires
        n <= pool.len(),
    ensures
        only_pool(kept(saved, monitors, previous, pool, n), pool),
    decreases n,
{
    if n > 0 {
        lemma_kept_only_pool(saved, monitors, previous, pool, (n - 1) as nat);
        lemma_kept_within(saved, monitors, previous, pool, (n - 1) as nat);
        let before = kept(saved, monitors, previous, pool, (n - 1) as nat);
        let id = pool[n - 1];
        if previous.contains_key(id) {
            lemma_monitor_index(monitors, previous[id].monitor);
        }
        lemma_put_only_pool(before, kept_on(saved, monitors, previous, before, id), id, pool);
    }
}

proof fn lemma_filled_only_pool(
    saved: Seq<SavedMonitor>,
    monitors: Seq<MonitorInfo>,
    start: Seq<Seq<Uuid>>,
    pool: Seq<Uuid>,
    n: nat,
)
    requires
        n <= pool.len(),
        within_capacity(saved, monitors, start),
        only_pool(start, pool),
    ensures
        only_pool(filled(saved, monitors, start, pool, n), pool),
    decreases n,
{
    if n > 0 {
        lemma_filled_only_pool(saved, monitors, start, pool, (n - 1) as nat);
        lemma_filled_within(saved, monitors, start, pool, (n - 1) as nat);
        let before = filled(saved, monitors, start, pool, (n - 1) as nat);
        lemma_best_monitor(saved, monitors, before, monitors.len());
        lemma_put_only_pool(
            before,
            best_monitor(saved, monitors, before, monitors.len()),
            pool[n - 1],
            pool,
        );
    }
}

/// The sets on a monitor, each with one cell.
pub proof fn lemma_seated(
    saved: Seq<SavedMonitor>,
    monitors: Seq<MonitorInfo>,
    previous: Map<Uuid, SlotView>,
    pool: Seq<Uuid>,
)
    ensures
        joined(saved, monitors, previous, pool).len() == monitors.len(),
        occupancy(saved, monitors, previous, pool).len() == monitors.len(),
        forall|i: int|
            0 <= i < monitors.len() ==> (#[trigger] occupancy(
                saved,
                monitors,
                previous,
                pool,
            )[i]).len() == joined(saved, monitors, previous, pool)[i].len(),
        forall|i: int, id: Uuid|
            0 <= i < monitors.len() ==> (#[trigger] occupancy(
                saved,
                monitors,
                previous,
                pool,
            )[i].contains(id) <==> joined(saved, monitors, previous, pool)[i].contains(id)),
        forall|i: int|
            0 <= i < monitors.len() && joined(saved, monitors, previous, pool)[i].no_duplicates()
                ==> (#[trigger] occupancy(saved, monitors, previous, pool)[i]).no_duplicates(),
{
    lemma_kept_within(saved, monitors, previous, pool, pool.len());
    let start = kept(saved, monitors, previous, pool, pool.len());
    lemma_filled_within(saved, monitors, start, pool, pool.len());
    let on = joined(saved, monitors, previous, pool);
    let held = occupancy(saved, monitors, previous, pool);
    assert forall|i: int| 0 <= i < monitors.len() implies {
        &&& (#[trigger] held[i]).len() == on[i].len()
        &&& on[i].no_duplicates() ==> held[i].no_duplicates()
    } by {
        parking_seats::lemma_seats_hold(
            previous,
            monitors[i].device_name@,
            pool,
            on[i],
            0,
            on[i].len(),
        );
    }
    assert forall|i: int, id: Uuid| 0 <= i < monitors.len() implies (#[trigger] held[i].contains(id)
        <==> on[i].contains(id)) by {
        parking_seats::lemma_seats_hold(
            previous,
            monitors[i].device_name@,
            pool,
            on[i],
            0,
            on[i].len(),
        );
    }
}

/// In the end no monitor is over its capacity, and it holds sets of the pool only.
pub proof fn lemma_occupancy(
    saved: Seq<SavedMonitor>,
    monitors: Seq<MonitorInfo>,
    previous: Map<Uuid, SlotView>,
    pool: Seq<Uuid>,
)
    ensures
        within_capacity(saved, monitors, joined(saved, monitors, previous, pool)),
        within_capacity(saved, monitors, occupancy(saved, monitors, previous, pool)),
        only_pool(joined(saved, monitors, previous, pool), pool),
        only_pool(occupancy(saved, monitors, previous, pool), pool),
{
    lemma_kept_within(saved, monitors, previous, pool, pool.len());
    lemma_kept_only_pool(saved, monitors, previous, pool, pool.len());
    let start = kept(saved, monitors, previous, pool, pool.len());
    lemma_filled_within(saved, monitors, start, pool, pool.len());
    lemma_filled_only_pool(saved, monitors, start, pool, pool.len());
    lemma_seated(saved, monitors, previous, pool);
    let on = joined(saved, monitors, previous, pool);
    let held = occupancy(saved, monitors, previous, pool);
    assert forall|i: int| 0 <= i < held.len() implies (#[trigger] held[i]).len()
        <= monitor_capacity(saved, monitors[i]) by {
        assert(on[i].len() <= monitor_capacity(saved, monitors[i]));
    }
    assert forall|i: int, k: int| 0 <= i < held.len() && 0 <= k < held[i].len() implies pool.contains(
        #[trigger] held[i][k],
    ) by {
        assert(held[i].contains(held[i][k]));
        let l = choose|l: int| 0 <= l < on[i].len() && on[i][l] == held[i][k];
        assert(pool.contains(on[i][l]));
    }
}

/// No two sets are given the same parking cell.
pub proof fn law_no_cell_is_shared(
    input: AllocationView,
    pool: Seq<Uuid>,
    monitors: Seq<MonitorInfo>,
    a: Uuid,
    b: Uuid,
)
    requires
        distinct_names(input.live_monitors),
        monitor_resolution::in_reading_order(monitors, auto_targets(input)),
        auto_slots(input, pool, monitors).contains_key(a),
        auto_slots(input, pool, monitors).contains_key(b),
        a != b,
    ensures
        auto_slots(input, pool, monitors)[a] != auto_slots(input, pool, monitors)[b],
{
    let saved = input.saved_monitors;
    let previous = input.previous;
    let held = occupancy(saved, monitors, previous, pool);
    lemma_occupancy(saved, monitors, previous, pool);
    lemma_targets_in_order(input, monitors);
    let none = Map::<Uuid, AssignmentView>::empty();
    let places = auto_places(none, monitors, held, monitors.len());
    lemma_auto_places(none, monitors, held, monitors.len(), a);
    lemma_auto_places(none, monitors, held, monitors.len(), b);
    let (i, k) = choose|i: int, k: int|
        i < monitors.len() && #[trigger] holds_cell(monitors, held, a, places[a], i, k);
    let (j, l) = choose|j: int, l: int|
        j < monitors.len() && #[trigger] holds_cell(monitors, held, b, places[b], j, l);
    if i < j {
        assert(monitors[i].device_name@ != monitors[j].device_name@);
    } else if j < i {
        assert(monitors[j].device_name@ != monitors[i].device_name@);
    }
}

/// A set is parked as room allows only on a connected monitor that is no main monitor, is not
/// excluded, is in no named parking area and carries no fixed slot.
pub proof fn law_parked_on_targets_only(
    input: AllocationView,
    pool: Seq<Uuid>,
    monitors: Seq<MonitorInfo>,
    id: Uuid,
)
    requires
        monitor_resolution::in_reading_order(monitors, auto_targets(input)),
        auto_slots(input, pool, monitors).contains_key(id),
    ensures
        exists|m: MonitorInfo|
            input.live_monitors.contains(m) && #[trigger] is_auto_target(input, m)
                && m.device_name@ == auto_slots(input, pool, monitors)[id].monitor,
{
    let saved = input.saved_monitors;
    let previous = input.previous;
    let held = occupancy(saved, monitors, previous, pool);
    lemma_occupancy(saved, monitors, previous, pool);
    lemma_targets_in_order(input, monitors);
    let none = Map::<Uuid, AssignmentView>::empty();
    let places = auto_places(none, monitors, held, monitors.len());
    lemma_auto_places(none, monitors, held, monitors.len(), id);
    let (i, k) = choose|i: int, k: int|
        i < monitors.len() && #[trigger] holds_cell(monitors, held, id, places[id], i, k);
    assert(is_auto_target(input, monitors[i]));
}

/// Two sets that are parked on one monitor never cover a common pixel, and each stays within the
/// monitor's work area.
pub proof fn law_parked_sets_do_not_overlap(
    saved: Seq<SavedMonitor>,
    monitors: Seq<MonitorInfo>,
    previous: Map<Uuid, SlotView>,
    pool: Seq<Uuid>,
    i: int,
    k: int,
    l: int,
    px: int,
    py: int,
)
    requires
        monitors_fit(monitors),
        0 <= i < monitors.len(),
        0 <= k < l < occupancy(saved, monitors, previous, pool)[i].len(),
    ensures
        ({
            let area = monitors[i].work_area_px;
            let cells = parking_cells::cells_for(
                area,
                occupancy(saved, monitors, previous, pool)[i].len(),
            );
            &&& !(cells[k].covers(px, py) && cells[l].covers(px, py))
            &&& cells[k].covers(px, py) ==> area.covers(px, py)
            &&& cells[l].covers(px, py) ==> area.covers(px, py)
        }),
{
    lemma_occupancy(saved, monitors, previous, pool);
    let area = monitors[i].work_area_px;
    let count = occupancy(saved, monitors, previous, pool)[i].len();
    lemma_capacity_bound(saved, monitors[i]);
    parking_cells::lemma_cells_for_len(area, count);
    parking_cells::law_cells_tile_the_region(area, count);
    let cells = parking_cells::cells_for(area, count);
    if cells[k].covers(px, py) {
        assert(!cells[l].covers(px, py));
    }
}

pub proof fn lemma_fixed_places(input: AllocationView, n: nat, id: Uuid)
    requires
        n <= input.worksets.len(),
        fixed_places(input, n).contains_key(id),
    ensures
        Some(id) != input.current,
        !(fixed_places(input, n)[id] is Auto),
    decreases n,
{
    if n > 0 {
        let w = input.worksets[n - 1];
        if fixed_slot_of(input, w) is Some && not_current(input, w) && w.id == id {
        } else {
            lemma_fixed_places(input, (n - 1) as nat, id);
        }
    }
}

/// The id is that of a set that is parked as room allows.
pub open spec fn is_member_id(input: AllocationView, id: Uuid) -> bool {
    exists|j: int|
        0 <= j < input.worksets.len() && (#[trigger] input.worksets[j]).id == id && is_auto_parked(
            input,
            input.worksets[j],
        )
}

/// The pool holds sets other than the current one, and every set that is parked as room allows.
pub proof fn lemma_pool(input: AllocationView, pool: Seq<Uuid>)
    requires
        is_pool(input, pool),
    ensures
        forall|i: int| 0 <= i < pool.len() ==> Some(#[trigger] pool[i]) != input.current,
        forall|i: int|
            0 <= i < input.worksets.len() && is_auto_parked(input, #[trigger] input.worksets[i])
                ==> pool.contains(input.worksets[i].id),
        forall|i: int| 0 <= i < pool.len() ==> is_member_id(input, #[trigger] pool[i]),
{
    let keep = |w: Workset| is_auto_parked(input, w);
    let members = auto_members(input);
    let keys = member_keys(members);
    let o = choose|o: Seq<usize>| #[trigger]
        order::is_stable_order(o, keys) && pool == order::picked(member_ids(members), o);
    order::lemma_filter_members(input.worksets, keep);
    assert forall|i: int| 0 <= i < pool.len() implies Some(#[trigger] pool[i])
        != input.current by {
        assert(pool[i] == members[o[i] as int].id);
    }
    assert forall|i: int| 0 <= i < pool.len() implies is_member_id(input, #[trigger] pool[i]) by {
        assert(pool[i] == members[o[i] as int].id);
        assert(input.worksets.contains(members[o[i] as int]));
    }
    order::lemma_stable_order_distinct(o, keys);
    order::lemma_order_is_complete(o, keys.len());
    assert forall|i: int|
        0 <= i < input.worksets.len() && is_auto_parked(
            input,
            #[trigger] input.worksets[i],
        ) implies pool.contains(input.worksets[i].id) by {
        let j = lemma_filter_keeps(input.worksets, keep, i);
        assert(o.contains(j as usize));
        let a = choose|a: int| 0 <= a < o.len() && o[a] == j as usize;
        assert(pool[a] == members[j].id);
    }
}

pub proof fn lemma_filter_keeps(s: Seq<Workset>, keep: spec_fn(Workset) -> bool, i: int) -> (j: int)
    requires
        0 <= i < s.len(),
        keep(s[i]),
    ensures
        0 <= j < s.filter(keep).len(),
        s.filter(keep)[j] == s[i],
    decreases s.len(),
{
    reveal(Seq::filter);
    if i == s.len() - 1 {
        s.filter(keep).len() - 1
    } else {
        lemma_filter_keeps(s.drop_last(), keep, i)
    }
}

pub proof fn lemma_overflow_places(
    base: Map<Uuid, AssignmentView>,
    held: Seq<Seq<Uuid>>,
    pool: Seq<Uuid>,
    n: nat,
    id: Uuid,
)
    requires
        n <= pool.len(),
    ensures
        base.contains_key(id) ==> overflow_places(base, held, pool, n).contains_key(id),
        overflow_places(base, held, pool, n).contains_key(id) ==> base.contains_key(id)
            || pool.contains(id),
        (exists|i: int| 0 <= i < n && #[trigger] pool[i] == id) && !is_held(held, id)
            ==> overflow_places(base, held, pool, n).contains_key(id) && overflow_places(
            base,
            held,
            pool,
            n,
        )[id] == AssignmentView::Minimized,
        is_held(held, id) && base.contains_key(id) ==> overflow_places(base, held, pool, n)[id]
            == base[id],
        !pool.contains(id) && base.contains_key(id) ==> overflow_places(base, held, pool, n)[id]
            == base[id],
        overflow_places(base, held, pool, n).contains_key(id) ==> overflow_places(
            base,
            held,
            pool,
            n,
        )[id] == AssignmentView::Minimized || (base.contains_key(id) && overflow_places(
            base,
            held,
            pool,
            n,
        )[id] == base[id]),
    decreases n,
{
    if n > 0 {
        lemma_overflow_places(base, held, pool, (n - 1) as nat, id);
        assert(pool[n - 1] == id ==> pool.contains(id));
    }
}

/// The current set is never parked.
pub proof fn law_current_set_is_not_parked(
    input: AllocationView,
    pool: Seq<Uuid>,
    monitors: Seq<MonitorInfo>,
    id: Uuid,
)
    requires
        is_pool(input, pool),
        all_places(input, pool, monitors).contains_key(id),
    ensures
        Some(id) != input.current,
{
    let saved = input.saved_monitors;
    let previous = input.previous;
    let held = occupancy(saved, monitors, previous, pool);
    lemma_occupancy(saved, monitors, previous, pool);
    lemma_pool(input, pool);
    let fixed = fixed_places(input, input.worksets.len());
    let base = auto_places(fixed, monitors, held, monitors.len());
    lemma_overflow_places(base, held, pool, pool.len(), id);
    if base.contains_key(id) {
        lemma_auto_places(fixed, monitors, held, monitors.len(), id);
        if fixed.contains_key(id) && base[id] == fixed[id] {
            lemma_fixed_places(input, input.worksets.len(), id);
        } else {
            let (i, k) = choose|i: int, k: int|
                i < monitors.len() && #[trigger] holds_cell(monitors, held, id, base[id], i, k);
            assert(pool.contains(held[i][k]));
        }
    }
}

/// Every set that is parked as room allows is given a place: a cell, or being minimized.
pub proof fn law_every_pooled_set_has_a_place(
    input: AllocationView,
    pool: Seq<Uuid>,
    monitors: Seq<MonitorInfo>,
    i: int,
)
    requires
        is_pool(input, pool),
        0 <= i < input.worksets.len(),
        is_auto_parked(input, input.worksets[i]),
    ensures
        all_places(input, pool, monitors).contains_key(input.worksets[i].id),
{
    let saved = input.saved_monitors;
    let previous = input.previous;
    let held = occupancy(saved, monitors, previous, pool);
    lemma_occupancy(saved, monitors, previous, pool);
    lemma_pool(input, pool);
    let id = input.worksets[i].id;
    assert(pool.contains(id));
    let fixed = fixed_places(input, input.worksets.len());
    let base = auto_places(fixed, monitors, held, monitors.len());
    lemma_overflow_places(base, held, pool, pool.len(), id);
    if is_held(held, id) {
        let m = choose|m: int| 0 <= m < held.len() && (#[trigger] held[m]).contains(id);
        let k = choose|k: int| 0 <= k < held[m].len() && held[m][k] == id;
        lemma_auto_places_has(fixed, monitors, held, monitors.len());
        assert(base.contains_key(held[m][k]));
    } else {
        let p = choose|p: int| 0 <= p < pool.len() && pool[p] == id;
        assert(pool[p] == id);
    }
}

/// A monitor only ever takes on more sets while the pool is placed.
pub proof fn lemma_filled_grows(
    saved: Seq<SavedMonitor>,
    monitors: Seq<MonitorInfo>,
    start: Seq<Seq<Uuid>>,
    pool: Seq<Uuid>,
    m: nat,
    n: nat,
)
    requires
        m <= n <= pool.len(),
        within_capacity(saved, monitors, start),
    ensures
        forall|i: int|
            0 <= i < monitors.len() ==> (#[trigger] filled(saved, monitors, start, pool, m)[i]).len()
                <= filled(saved, monitors, start, pool, n)[i].len(),
        forall|id: Uuid|
            is_held(filled(saved, monitors, start, pool, m), id) ==> #[trigger] is_held(
                filled(saved, monitors, start, pool, n),
                id,
            ),
    decreases n,
{
    if m < n {
        lemma_filled_grows(saved, monitors, start, pool, m, (n - 1) as nat);
        lemma_filled_within(saved, monitors, start, pool, (n - 1) as nat);
        let before = filled(saved, monitors, start, pool, (n - 1) as nat);
        let now = filled(saved, monitors, start, pool, n);
        lemma_best_monitor(saved, monitors, before, monitors.len());
        assert forall|id: Uuid|
            is_held(filled(saved, monitors, start, pool, m), id) implies #[trigger] is_held(
            now,
            id,
        ) by {
            assert(is_held(before, id));
            let i = choose|i: int| 0 <= i < before.len() && (#[trigger] before[i]).contains(id);
            let k = choose|k: int| 0 <= k < before[i].len() && before[i][k] == id;
            assert(now[i][k] == id);
            assert(now[i].contains(id));
        }
    }
}

/// A set of the pool is left without a cell only when every target monitor is full.
pub proof fn law_minimized_only_when_full(
    saved: Seq<SavedMonitor>,
    monitors: Seq<MonitorInfo>,
    previous: Map<Uuid, SlotView>,
    pool: Seq<Uuid>,
    p: int,
)
    requires
        0 <= p < pool.len(),
        !is_held(occupancy(saved, monitors, previous, pool), pool[p]),
    ensures
        forall|i: int|
            0 <= i < monitors.len() ==> (#[trigger] occupancy(
                saved,
                monitors,
                previous,
                pool,
            )[i]).len() == monitor_capacity(saved, monitors[i]),
{
    let start = kept(saved, monitors, previous, pool, pool.len());
    lemma_kept_within(saved, monitors, previous, pool, pool.len());
    lemma_filled_within(saved, monitors, start, pool, p as nat);
    lemma_filled_within(saved, monitors, start, pool, pool.len());
    let before = filled(saved, monitors, start, pool, p as nat);
    let after = filled(saved, monitors, start, pool, (p + 1) as nat);
    lemma_filled_grows(saved, monitors, start, pool, p as nat, pool.len());
    lemma_filled_grows(saved, monitors, start, pool, (p + 1) as nat, pool.len());
    lemma_best_monitor(saved, monitors, before, monitors.len());
    let id = pool[p];
    let last = joined(saved, monitors, previous, pool);
    let held = occupancy(saved, monitors, previous, pool);
    lemma_seated(saved, monitors, previous, pool);
    assert(!is_held(last, id)) by {
        if is_held(last, id) {
            let i = choose|i: int| 0 <= i < last.len() && (#[trigger] last[i]).contains(id);
            assert(held[i].contains(id));
        }
    }
    assert(!is_held(before, id));
    assert(!is_held(after, id));
    if let Some(b) = best_monitor(saved, monitors, before, monitors.len()) {
        assert(after[b][before[b].len() as int] == id);
        assert(after[b].contains(id));
        assert(false);
    }
    assert forall|i: int| 0 <= i < monitors.len() implies (#[trigger] held[i]).len()
        == monitor_capacity(saved, monitors[i]) by {
        assert(!room_on(saved, monitors, before, i));
        assert(before[i].len() <= last[i].len());
    }
}

/// The slots that the sets on the monitors hold.
pub open spec fn held_slots(monitors: Seq<MonitorInfo>, held: Seq<Seq<Uuid>>) -> Map<Uuid, SlotView> {
    auto_places(Map::empty(), monitors, held, monitors.len()).map_values(
        |a: AssignmentView| slot_of(a),
    )
}

/// No set has two cells.
pub open spec fn apart(held: Seq<Seq<Uuid>>) -> bool {
    forall|i: int, k: int, j: int, l: int|
        0 <= i < held.len() && 0 <= k < held[i].len() && 0 <= j < held.len() && 0 <= l
            < held[j].len() && #[trigger] held[i][k] == #[trigger] held[j][l] ==> i == j && k == l
}

proof fn lemma_put_apart(held: Seq<Seq<Uuid>>, at: Option<int>, id: Uuid)
    requires
        apart(held),
        !is_held(held, id),
        at matches Some(i) ==> 0 <= i < held.len(),
    ensures
        apart(put_on(held, at, id)),
{
    let now = put_on(held, at, id);
    assert forall|i: int, k: int| 0 <= i < held.len() && 0 <= k < held[i].len() implies held[i][k]
        != id by {
        if held[i][k] == id {
            assert(held[i].contains(id));
        }
    }
    assert forall|i: int, k: int, j: int, l: int|
        0 <= i < now.len() && 0 <= k < now[i].len() && 0 <= j < now.len() && 0 <= l < now[j].len()
            && #[trigger] now[i][k] == #[trigger] now[j][l] implies i == j && k == l by {
        if k < held[i].len() {
            assert(now[i][k] == held[i][k]);
        }
        if l < held[j].len() {
            assert(now[j][l] == held[j][l]);
        }
    }
}

/// The set is among the first `n` of the pool.
pub open spec fn is_early(pool: Seq<Uuid>, n: nat, id: Uuid) -> bool {
    exists|p: int| 0 <= p < n && #[trigger] pool[p] == id
}

pub proof fn lemma_put_holds(held: Seq<Seq<Uuid>>, at: Option<int>, id: Uuid, i: int, x: Uuid)
    requires
        0 <= i < held.len(),
        at matches Some(j) ==> 0 <= j < held.len(),
    ensures
        put_on(held, at, id)[i].contains(x) <==> held[i].contains(x) || (at == Some(i) && x == id),
{
    let now = put_on(held, at, id);
    if held[i].contains(x) {
        let k = choose|k: int| 0 <= k < held[i].len() && held[i][k] == x;
        assert(now[i][k] == x);
    }
    if now[i].contains(x) {
        let k = choose|k: int| 0 <= k < now[i].len() && now[i][k] == x;
        if k < held[i].len() {
            assert(held[i][k] == x);
        }
    }
    if at == Some(i) {
        assert(now[i][held[i].len() as int] == id);
    }
}

pub proof fn lemma_kept_apart(
    saved: Seq<SavedMonitor>,
    monitors: Seq<MonitorInfo>,
    previous: Map<Uuid, SlotView>,
    pool: Seq<Uuid>,
    n: nat,
)
    requires
        n <= pool.len(),
        pool.no_duplicates(),
    ensures
        apart(kept(saved, monitors, previous, pool, n)),
        forall|id: Uuid| #[trigger]
            is_held(kept(saved, monitors, previous, pool, n), id) ==> is_early(pool, n, id),
    decreases n,
{
    if n > 0 {
        lemma_kept_apart(saved, monitors, previous, pool, (n - 1) as nat);
        lemma_kept_within(saved, monitors, previous, pool, (n - 1) as nat);
        let before = kept(saved, monitors, previous, pool, (n - 1) as nat);
        let now = kept(saved, monitors, previous, pool, n);
        let id = pool[n - 1];
        let at = kept_on(saved, monitors, previous, before, id);
        if previous.contains_key(id) {
            lemma_monitor_index(monitors, previous[id].monitor);
        }
        assert(!is_held(before, id)) by {
            if is_held(before, id) {
                assert(is_early(pool, (n - 1) as nat, id));
                let p = choose|p: int| 0 <= p < n - 1 && #[trigger] pool[p] == id;
                assert(pool[p] != pool[n - 1]);
            }
        }
        lemma_put_apart(before, at, id);
        assert forall|x: Uuid| #[trigger] is_held(now, x) implies is_early(pool, n, x) by {
            let i = choose|i: int| 0 <= i < now.len() && (#[trigger] now[i]).contains(x);
            lemma_put_holds(before, at, id, i, x);
            if before[i].contains(x) {
                assert(is_held(before, x));
                assert(is_early(pool, (n - 1) as nat, x));
                let p = choose|p: int| 0 <= p < n - 1 && #[trigger] pool[p] == x;
                assert(pool[p] == x);
            } else {
                assert(pool[n - 1] == x);
            }
        }
    } else {
        let now = kept(saved, monitors, previous, pool, n);
        assert forall|x: Uuid| #[trigger] is_held(now, x) implies is_early(pool, n, x) by {
            let i = choose|i: int| 0 <= i < now.len() && (#[trigger] now[i]).contains(x);
            assert(now[i].len() == 0);
        }
    }
}

pub proof fn lemma_filled_apart(
    saved: Seq<SavedMonitor>,
    monitors: Seq<MonitorInfo>,
    start: Seq<Seq<Uuid>>,
    pool: Seq<Uuid>,
    n: nat,
)
    requires
        n <= pool.len(),
        apart(start),
        within_capacity(saved, monitors, start),
    ensures
        apart(filled(saved, monitors, start, pool, n)),
    decreases n,
{
    if n > 0 {
        lemma_filled_apart(saved, monitors, start, pool, (n - 1) as nat);
        lemma_filled_within(saved, monitors, start, pool, (n - 1) as nat);
        let before = filled(saved, monitors, start, pool, (n - 1) as nat);
        lemma_best_monitor(saved, monitors, before, monitors.len());
        if !is_held(before, pool[n - 1]) {
            lemma_put_apart(
                before,
                best_monitor(saved, monitors, before, monitors.len()),
                pool[n - 1],
            );
        }
    }
}

/// No set has two cells in the end.
pub proof fn lemma_occupancy_apart(
    saved: Seq<SavedMonitor>,
    monitors: Seq<MonitorInfo>,
    previous: Map<Uuid, SlotView>,
    pool: Seq<Uuid>,
)
    requires
        pool.no_duplicates(),
    ensures
        apart(joined(saved, monitors, previous, pool)),
        apart(occupancy(saved, monitors, previous, pool)),
{
    let start = kept(saved, monitors, previous, pool, pool.len());
    lemma_kept_apart(saved, monitors, previous, pool, pool.len());
    lemma_kept_within(saved, monitors, previous, pool, pool.len());
    lemma_filled_apart(saved, monitors, start, pool, pool.len());
    lemma_seated(saved, monitors, previous, pool);
    let on = joined(saved, monitors, previous, pool);
    let held = occupancy(saved, monitors, previous, pool);
    assert forall|i: int, k: int, j: int, l: int|
        0 <= i < held.len() && 0 <= k < held[i].len() && 0 <= j < held.len() && 0 <= l
            < held[j].len() && #[trigger] held[i][k] == #[trigger] held[j][l] implies i == j && k
        == l by {
        let id = held[i][k];
        assert(held[i].contains(id) && held[j].contains(id));
        assert(on[i].contains(id) && on[j].contains(id));
        let a = choose|a: int| 0 <= a < on[i].len() && on[i][a] == id;
        let b = choose|b: int| 0 <= b < on[j].len() && on[j][b] == id;
        assert(on[i][a] == on[j][b]);
        lemma_apart_list(on, i);
        assert(held[i].no_duplicates());
    }
}

proof fn lemma_apart_list(held: Seq<Seq<Uuid>>, i: int)
    requires
        apart(held),
        0 <= i < held.len(),
    ensures
        held[i].no_duplicates(),
{
    assert forall|a: int, b: int| 0 <= a < held[i].len() && 0 <= b < held[i].len() && a != b implies held[i][a]
        != held[i][b] by {
        if held[i][a] == held[i][b] {
            assert(a == b);
        }
    }
}

pub proof fn lemma_name_index(monitors: Seq<MonitorInfo>, i: int)
    requires
        distinct_names(monitors),
        0 <= i < monitors.len(),
    ensures
        monitor_index(monitors, monitors[i].device_name@) == Some(i),
{
    lemma_monitor_index(monitors, monitors[i].device_name@);
    let j = monitor_index(monitors, monitors[i].device_name@)->0;
    if j < i {
        assert(monitors[j].device_name@ != monitors[i].device_name@);
    } else if i < j {
        assert(monitors[i].device_name@ != monitors[j].device_name@);
    }
}

/// A set's slot is the cell it holds.
pub proof fn lemma_held_slot(monitors: Seq<MonitorInfo>, held: Seq<Seq<Uuid>>, i: int, k: int)
    requires
        held.len() == monitors.len(),
        apart(held),
        0 <= i < held.len(),
        0 <= k < held[i].len(),
    ensures
        held_slots(monitors, held).contains_key(held[i][k]),
        held_slots(monitors, held)[held[i][k]] == (SlotView {
            monitor: monitors[i].device_name@,
            cell: k,
        }),
{
    let none = Map::<Uuid, AssignmentView>::empty();
    let id = held[i][k];
    let places = auto_places(none, monitors, held, monitors.len());
    lemma_auto_places_has(none, monitors, held, monitors.len());
    assert(places.contains_key(held[i][k]));
    lemma_auto_places(none, monitors, held, monitors.len(), id);
    let (j, l) = choose|j: int, l: int|
        j < monitors.len() && #[trigger] holds_cell(monitors, held, id, places[id], j, l);
    assert(held[i][k] == held[j][l]);
}

/// Whoever has a slot holds a cell.
pub proof fn lemma_slot_is_held(monitors: Seq<MonitorInfo>, held: Seq<Seq<Uuid>>, id: Uuid) -> (r: (
    int,
    int,
))
    requires
        held.len() == monitors.len(),
        held_slots(monitors, held).contains_key(id),
    ensures
        0 <= r.0 < held.len(),
        0 <= r.1 < held[r.0].len(),
        held[r.0][r.1] == id,
        held_slots(monitors, held)[id] == (SlotView {
            monitor: monitors[r.0].device_name@,
            cell: r.1,
        }),
{
    let none = Map::<Uuid, AssignmentView>::empty();
    let places = auto_places(none, monitors, held, monitors.len());
    lemma_auto_places(none, monitors, held, monitors.len(), id);
    let (i, k) = choose|i: int, k: int|
        i < monitors.len() && #[trigger] holds_cell(monitors, held, id, places[id], i, k);
    (i, k)
}

/// A list with no repetition that lacks one of the members of another is shorter.
proof fn lemma_fewer(a: Seq<Uuid>, b: Seq<Uuid>, id: Uuid)
    requires
        a.no_duplicates(),
        b.no_duplicates(),
        forall|x: Uuid| #[trigger] a.contains(x) ==> b.contains(x) && x != id,
        b.contains(id),
    ensures
        a.len() < b.len(),
{
    a.unique_seq_to_set();
    b.unique_seq_to_set();
    let rest = b.to_set().remove(id);
    assert forall|x: Uuid| #[trigger] a.to_set().contains(x) implies rest.contains(x) by {
        assert(a.contains(x));
    }
    assert(b.to_set().contains(id));
    vstd::set_lib::lemma_len_subset(a.to_set(), rest);
}

proof fn lemma_as_many(a: Seq<Uuid>, b: Seq<Uuid>)
    requires
        a.no_duplicates(),
        b.no_duplicates(),
        forall|x: Uuid| #[trigger] a.contains(x) <==> b.contains(x),
    ensures
        a.len() == b.len(),
{
    a.unique_seq_to_set();
    b.unique_seq_to_set();
    assert(a.to_set() =~= b.to_set()) by {
        assert forall|x: Uuid| a.to_set().contains(x) == b.to_set().contains(x) by {
            assert(a.contains(x) <==> b.contains(x));
        }
    }
}

/// In the next allocation every set stays on the monitor that it is on.
proof fn lemma_all_stay(
    saved: Seq<SavedMonitor>,
    monitors: Seq<MonitorInfo>,
    held: Seq<Seq<Uuid>>,
    pool: Seq<Uuid>,
    n: nat,
)
    requires
        n <= pool.len(),
        pool.no_duplicates(),
        distinct_names(monitors),
        within_capacity(saved, monitors, held),
        apart(held),
    ensures
        forall|i: int, id: Uuid|
            0 <= i < monitors.len() ==> (#[trigger] kept(
                saved,
                monitors,
                held_slots(monitors, held),
                pool,
                n,
            )[i].contains(id) <==> held[i].contains(id) && is_early(pool, n, id)),
    decreases n,
{
    let slots = held_slots(monitors, held);
    let now = kept(saved, monitors, slots, pool, n);
    if n == 0 {
        assert forall|i: int, id: Uuid| 0 <= i < monitors.len() implies (#[trigger] now[i].contains(
            id,
        ) <==> held[i].contains(id) && is_early(pool, n, id)) by {
            assert(now[i].len() == 0);
        }
    } else {
        lemma_all_stay(saved, monitors, held, pool, (n - 1) as nat);
        lemma_kept_within(saved, monitors, slots, pool, (n - 1) as nat);
        lemma_kept_apart(saved, monitors, slots, pool, (n - 1) as nat);
        let before = kept(saved, monitors, slots, pool, (n - 1) as nat);
        let id = pool[n - 1];
        let at = kept_on(saved, monitors, slots, before, id);
        if slots.contains_key(id) {
            lemma_monitor_index(monitors, slots[id].monitor);
            let (m, k) = lemma_slot_is_held(monitors, held, id);
            lemma_name_index(monitors, m);
            lemma_apart_list(before, m);
            lemma_apart_list(held, m);
            assert(held[m].contains(id));
            assert forall|x: Uuid| #[trigger] before[m].contains(x) implies held[m].contains(x) && x
                != id by {
                assert(is_early(pool, (n - 1) as nat, x));
                let p = choose|p: int| 0 <= p < n - 1 && #[trigger] pool[p] == x;
                assert(pool[p] != pool[n - 1]);
            }
            lemma_fewer(before[m], held[m], id);
            assert(held[m].len() <= monitor_capacity(saved, monitors[m]));
            assert(at == Some(m));
        }
        assert forall|i: int, x: Uuid| 0 <= i < monitors.len() implies (#[trigger] now[i].contains(x)
            <==> held[i].contains(x) && is_early(pool, n, x)) by {
            lemma_put_holds(before, at, id, i, x);
            assert(before[i].contains(x) <==> held[i].contains(x) && is_early(
                pool,
                (n - 1) as nat,
                x,
            ));
            assert(is_early(pool, n, x) <==> is_early(pool, (n - 1) as nat, x) || x == id) by {
                if is_early(pool, n, x) {
                    let p = choose|p: int| 0 <= p < n && #[trigger] pool[p] == x;
                    if p < n - 1 {
                        assert(pool[p] == x);
                    }
                }
                if is_early(pool, (n - 1) as nat, x) {
                    let p = choose|p: int| 0 <= p < n - 1 && #[trigger] pool[p] == x;
                    assert(pool[p] == x);
                }
                if x == id {
                    assert(pool[n - 1] == x);
                }
            }
            if held[i].contains(id) {
                let k = choose|k: int| 0 <= k < held[i].len() && held[i][k] == id;
                lemma_held_slot(monitors, held, i, k);
                lemma_name_index(monitors, i);
            }
            if at == Some(i) {
                let (m, k) = lemma_slot_is_held(monitors, held, id);
                lemma_name_index(monitors, m);
                assert(held[i].contains(id));
            }
        }
    }
}

/// Nothing is placed any more once everybody who can be placed is.
proof fn lemma_filled_is_settled(
    saved: Seq<SavedMonitor>,
    monitors: Seq<MonitorInfo>,
    start: Seq<Seq<Uuid>>,
    pool: Seq<Uuid>,
    n: nat,
)
    requires
        n <= pool.len(),
        within_capacity(saved, monitors, start),
        forall|p: int|
            0 <= p < pool.len() && !is_held(start, #[trigger] pool[p]) ==> best_monitor(
                saved,
                monitors,
                start,
                monitors.len(),
            ) is None,
    ensures
        filled(saved, monitors, start, pool, n) == start,
    decreases n,
{
    if n > 0 {
        lemma_filled_is_settled(saved, monitors, start, pool, (n - 1) as nat);
    }
}

/// An allocation is settled: fed its own result, the next one puts every set on the same cell
/// again.
pub proof fn law_allocation_is_settled(
    saved: Seq<SavedMonitor>,
    monitors: Seq<MonitorInfo>,
    previous: Map<Uuid, SlotView>,
    pool: Seq<Uuid>,
)
    requires
        pool.no_duplicates(),
        distinct_names(monitors),
    ensures
        ({
            let first = occupancy(saved, monitors, previous, pool);
            occupancy(saved, monitors, held_slots(monitors, first), pool) == first
        }),
{
    let first = occupancy(saved, monitors, previous, pool);
    let slots = held_slots(monitors, first);
    lemma_occupancy(saved, monitors, previous, pool);
    lemma_occupancy_apart(saved, monitors, previous, pool);
    lemma_all_stay(saved, monitors, first, pool, pool.len());
    lemma_kept_within(saved, monitors, slots, pool, pool.len());
    lemma_kept_apart(saved, monitors, slots, pool, pool.len());
    let start = kept(saved, monitors, slots, pool, pool.len());
    assert forall|i: int, id: Uuid| 0 <= i < monitors.len() implies (#[trigger] start[i].contains(id)
        <==> first[i].contains(id)) by {
        if first[i].contains(id) {
            let k = choose|k: int| 0 <= k < first[i].len() && first[i][k] == id;
            assert(pool.contains(first[i][k]));
            let p = choose|p: int| 0 <= p < pool.len() && pool[p] == id;
            assert(pool[p] == id);
            assert(is_early(pool, pool.len(), id));
        }
    }
    assert forall|i: int| 0 <= i < monitors.len() implies (#[trigger] start[i]).len()
        == first[i].len() by {
        lemma_apart_list(start, i);
        lemma_apart_list(first, i);
        assert forall|x: Uuid| #[trigger] start[i].contains(x) <==> first[i].contains(x) by {}
        lemma_as_many(start[i], first[i]);
    }
    assert forall|p: int|
        0 <= p < pool.len() && !is_held(start, #[trigger] pool[p]) implies best_monitor(
        saved,
        monitors,
        start,
        monitors.len(),
    ) is None by {
        let id = pool[p];
        assert(!is_held(first, id)) by {
            if is_held(first, id) {
                let i = choose|i: int| 0 <= i < first.len() && (#[trigger] first[i]).contains(id);
                assert(start[i].contains(id));
            }
        }
        law_minimized_only_when_full(saved, monitors, previous, pool, p);
        lemma_best_monitor(saved, monitors, start, monitors.len());
        if let Some(b) = best_monitor(saved, monitors, start, monitors.len()) {
            assert(start[b].len() == first[b].len());
            assert(first[b].len() == monitor_capacity(saved, monitors[b]));
        }
    }
    lemma_filled_is_settled(saved, monitors, start, pool, pool.len());
    assert(joined(saved, monitors, slots, pool) == start);
    lemma_seated(saved, monitors, slots, pool);
    let second = occupancy(saved, monitors, slots, pool);
    assert forall|i: int| 0 <= i < monitors.len() implies second[i] == first[i] by {
        assert(start[i].len() == first[i].len());
        assert(second[i].len() == start[i].len());
        assert forall|k: int| 0 <= k < first[i].len() implies second[i][k] == first[i][k] by {
            lemma_held_slot(monitors, first, i, k);
            assert(start[i].contains(first[i][k])) by {
                assert(first[i].contains(first[i][k]));
            }
            lemma_sits_again(saved, monitors, slots, pool, first, start, i, k);
        }
        assert(second[i] =~= first[i]);
    }
    assert(second =~= first);
}

proof fn lemma_sits_again(
    saved: Seq<SavedMonitor>,
    monitors: Seq<MonitorInfo>,
    slots: Map<Uuid, SlotView>,
    pool: Seq<Uuid>,
    first: Seq<Seq<Uuid>>,
    start: Seq<Seq<Uuid>>,
    i: int,
    k: int,
)
    requires
        pool.no_duplicates(),
        slots == held_slots(monitors, first),
        first.len() == monitors.len() == start.len(),
        apart(first),
        apart(start),
        within_capacity(saved, monitors, start),
        only_pool(first, pool),
        0 <= i < monitors.len(),
        forall|x: Uuid| #[trigger] start[i].contains(x) <==> first[i].contains(x),
        start[i].len() == first[i].len(),
        0 <= k < first[i].len(),
    ensures
        parking_seats::seated(slots, monitors[i].device_name@, pool, start[i])[k] == first[i][k],
{
    let id = first[i][k];
    lemma_held_slot(monitors, first, i, k);
    lemma_apart_list(start, i);
    lemma_capacity_bound(saved, monitors[i]);
    assert(start[i].len() <= monitor_capacity(saved, monitors[i]));
    assert(first[i].contains(id));
    assert forall|j: int| 0 <= j < start[i].len() implies pool.contains(#[trigger] start[i][j]) by {
        assert(start[i].contains(start[i][j]));
        let l = choose|l: int| 0 <= l < first[i].len() && first[i][l] == start[i][j];
        assert(pool.contains(first[i][l]));
    }
    assert forall|j: int|
        0 <= j < start[i].len() && #[trigger] start[i][j] != id implies !parking_seats::claims(
        slots,
        monitors[i].device_name@,
        start[i][j],
        k,
    ) by {
        assert(start[i].contains(start[i][j]));
        let l = choose|l: int| 0 <= l < first[i].len() && first[i][l] == start[i][j];
        lemma_held_slot(monitors, first, i, l);
    }
    parking_seats::lemma_sole_claimant_is_seated(
        slots,
        monitors[i].device_name@,
        pool,
        start[i],
        id,
    );
}

/// Every input whose lists fit the machine has its allocation.
pub proof fn lemma_allocation_exists(input: AllocationView)
    requires
        input.worksets.len() <= usize::MAX,
        input.live_monitors.len() <= usize::MAX,
    ensures
        is_allocation(input, allocation(input).0, allocation(input).1),
{
    input.worksets.lemma_filter_len(|w: Workset| is_auto_parked(input, w));
    input.live_monitors.lemma_filter_len(|m: MonitorInfo| is_auto_target(input, m));
    let members = auto_members(input);
    let o = order::lemma_stable_order_exists(member_keys(members));
    let pool = order::picked(member_ids(members), o);
    assert(is_pool(input, pool));
    let targets = auto_targets(input);
    let t = order::lemma_stable_order_exists(monitor_resolution::reading_keys(targets));
    let monitors = order::picked(targets, t);
    assert(monitor_resolution::in_reading_order(monitors, targets));
    let a = (all_places(input, pool, monitors), auto_slots(input, pool, monitors));
    assert(is_allocation(input, a.0, a.1));
}

/// No pixel of `inner` lies outside of `outer`.
pub open spec fn lies_within(inner: PixelRect, outer: PixelRect) -> bool {
    forall|px: int, py: int| #[trigger] inner.covers(px, py) ==> outer.covers(px, py)
}

/// The rectangle lies wholly in the work area of one connected monitor.
pub open spec fn on_one_monitor(rect: PixelRect, live: Seq<MonitorInfo>) -> bool {
    exists|m: MonitorInfo| #[trigger] live.contains(m) && lies_within(rect, m.work_area_px)
}

pub open spec fn place_on_one_monitor(a: AssignmentView, live: Seq<MonitorInfo>) -> bool {
    match a {
        AssignmentView::Auto(_, rect) => on_one_monitor(rect, live),
        AssignmentView::Fixed(_, rect) => on_one_monitor(rect, live),
        AssignmentView::Minimized => true,
    }
}

proof fn lemma_fixed_assignment_on_monitor(input: AllocationView, slot: FixedParkingSlot)
    requires
        monitors_fit(input.live_monitors),
    ensures
        place_on_one_monitor(fixed_assignment(input, slot), input.live_monitors),
        place_fits(fixed_assignment(input, slot)),
{
    let live = input.live_monitors;
    monitor_resolution::lemma_live_monitor(live, slot.monitor_id@);
    if let AssignmentView::Fixed(_, rect) = fixed_assignment(input, slot) {
        let m = monitor_resolution::live_monitor(live, slot.monitor_id@)->0;
        assert(live.contains(m));
        layout_service::law_split_cells_tile_the_area(m.work_area_px, slot.grid);
        let cells = layout_service::split_cells(m.work_area_px, slot.grid);
        let k = slot.cell_index as int;
        assert(cells[k] == rect);
        assert(lies_within(rect, m.work_area_px)) by {
            assert forall|px: int, py: int| #[trigger] rect.covers(px, py) implies m.work_area_px.covers(
                px,
                py,
            ) by {
                assert(cells[k].covers(px, py));
            }
        }
    }
}

proof fn lemma_fixed_places_on_monitor(input: AllocationView, n: nat, id: Uuid)
    requires
        n <= input.worksets.len(),
        monitors_fit(input.live_monitors),
        fixed_places(input, n).contains_key(id),
    ensures
        place_on_one_monitor(fixed_places(input, n)[id], input.live_monitors),
        place_fits(fixed_places(input, n)[id]),
    decreases n,
{
    if n > 0 {
        let w = input.worksets[n - 1];
        if fixed_slot_of(input, w) is Some && not_current(input, w) && w.id == id {
            lemma_fixed_assignment_on_monitor(input, fixed_slot_of(input, w)->0);
        } else {
            lemma_fixed_places_on_monitor(input, (n - 1) as nat, id);
        }
    }
}

/// Every cell that is dealt out lies wholly on one connected monitor.
pub proof fn law_dealt_cells_lie_on_a_monitor(input: AllocationView, id: Uuid)
    requires
        input.worksets.len() <= usize::MAX,
        input.live_monitors.len() <= usize::MAX,
        monitors_fit(input.live_monitors),
        allocation(input).0.contains_key(id),
    ensures
        place_on_one_monitor(allocation(input).0[id], input.live_monitors),
        place_fits(allocation(input).0[id]),
{
    lemma_allocation_exists(input);
    let places = allocation(input).0;
    let (pool, monitors) = choose|pool: Seq<Uuid>, monitors: Seq<MonitorInfo>|
        {
            &&& #[trigger] is_pool(input, pool)
            &&& #[trigger] monitor_resolution::in_reading_order(monitors, auto_targets(input))
            &&& places == all_places(input, pool, monitors)
            &&& allocation(input).1 == auto_slots(input, pool, monitors)
        };
    let saved = input.saved_monitors;
    let held = occupancy(saved, monitors, input.previous, pool);
    lemma_occupancy(saved, monitors, input.previous, pool);
    lemma_targets_in_order(input, monitors);
    let fixed = fixed_places(input, input.worksets.len());
    let base = auto_places(fixed, monitors, held, monitors.len());
    lemma_overflow_places(base, held, pool, pool.len(), id);
    if places[id] != AssignmentView::Minimized {
        lemma_auto_places(fixed, monitors, held, monitors.len(), id);
        if fixed.contains_key(id) && base[id] == fixed[id] {
            lemma_fixed_places_on_monitor(input, input.worksets.len(), id);
        } else {
            let (i, k) = choose|i: int, k: int|
                i < monitors.len() && #[trigger] holds_cell(monitors, held, id, base[id], i, k);
            let area = monitors[i].work_area_px;
            let count = held[i].len();
            lemma_capacity_bound(saved, monitors[i]);
            assert(input.live_monitors.contains(monitors[i]));
            assert(area.fits());
            parking_cells::lemma_cells_for_len(area, count);
            parking_cells::lemma_cells_fit(area, count);
            parking_cells::law_cells_tile_the_region(area, count);
            let cells = parking_cells::cells_for(area, count);
            assert(lies_within(cells[k], area));
        }
    }
}

/// No two sets share an id.
pub open spec fn distinct_sets(worksets: Seq<Workset>) -> bool {
    forall|i: int, j: int|
        0 <= i < j < worksets.len() ==> (#[trigger] worksets[i]).id != (#[trigger] worksets[j]).id
}

proof fn lemma_filter_distinct_sets(worksets: Seq<Workset>, keep: spec_fn(Workset) -> bool)
    requires
        distinct_sets(worksets),
    ensures
        distinct_sets(worksets.filter(keep)),
    decreases worksets.len(),
{
    reveal(Seq::filter);
    if worksets.len() > 0 {
        let rest = worksets.drop_last();
        assert(distinct_sets(rest)) by {
            assert forall|i: int, j: int| 0 <= i < j < rest.len() implies (#[trigger] rest[i]).id != (
            #[trigger] rest[j]).id by {
                assert(worksets[i].id != worksets[j].id);
            }
        }
        lemma_filter_distinct_sets(rest, keep);
        order::lemma_filter_members(rest, keep);
        let before = rest.filter(keep);
        let now = worksets.filter(keep);
        assert forall|i: int, j: int| 0 <= i < j < now.len() implies (#[trigger] now[i]).id != (
        #[trigger] now[j]).id by {
            if j < before.len() {
                assert(before[i].id != before[j].id);
            } else {
                assert(rest.contains(before[i]));
                let k = choose|k: int| 0 <= k < rest.len() && rest[k] == before[i];
                assert(worksets[k].id != worksets[worksets.len() - 1].id);
            }
        }
    }
}

/// Where no two sets share an id, the pool names none twice.
pub proof fn lemma_pool_distinct(input: AllocationView, pool: Seq<Uuid>)
    requires
        is_pool(input, pool),
        distinct_sets(input.worksets),
    ensures
        pool.no_duplicates(),
{
    let members = auto_members(input);
    let keys = member_keys(members);
    let o = choose|o: Seq<usize>| #[trigger]
        order::is_stable_order(o, keys) && pool == order::picked(member_ids(members), o);
    lemma_filter_distinct_sets(input.worksets, |w: Workset| is_auto_parked(input, w));
    order::lemma_stable_order_distinct(o, keys);
    assert forall|i: int, j: int| 0 <= i < pool.len() && 0 <= j < pool.len() && i != j implies pool[i]
        != pool[j] by {
        assert(pool[i] == members[o[i] as int].id && pool[j] == members[o[j] as int].id);
        assert(o[i] != o[j]);
        if o[i] < o[j] {
            assert(members[o[i] as int].id != members[o[j] as int].id);
        } else {
            assert(members[o[j] as int].id != members[o[i] as int].id);
        }
    }
}

/// The pool and the target monitors that the allocation goes by.
pub proof fn lemma_allocation_parts(input: AllocationView) -> (r: (Seq<Uuid>, Seq<MonitorInfo>))
    requires
        input.worksets.len() <= usize::MAX,
        input.live_monitors.len() <= usize::MAX,
    ensures
        is_pool(input, r.0),
        monitor_resolution::in_reading_order(r.1, auto_targets(input)),
        allocation(input) == (all_places(input, r.0, r.1), auto_slots(input, r.0, r.1)),
{
    lemma_allocation_exists(input);
    choose|pool: Seq<Uuid>, monitors: Seq<MonitorInfo>|
        {
            &&& #[trigger] is_pool(input, pool)
            &&& #[trigger] monitor_resolution::in_reading_order(monitors, auto_targets(input))
            &&& allocation(input).0 == all_places(input, pool, monitors)
            &&& allocation(input).1 == auto_slots(input, pool, monitors)
        }
}

/// A monitor with a fixed slot is never given to a set that is parked as room allows, whether or
/// not the slot's set is parked right now.
pub proof fn law_fixed_slots_are_kept_free(input: AllocationView, id: Uuid, i: int)
    requires
        input.worksets.len() <= usize::MAX,
        input.live_monitors.len() <= usize::MAX,
        0 <= i < input.fixed_slots.len(),
        allocation(input).1.contains_key(id),
    ensures
        allocation(input).1[id].monitor != input.fixed_slots[i].monitor_id@,
{
    let (pool, monitors) = lemma_allocation_parts(input);
    law_parked_on_targets_only(input, pool, monitors, id);
    let m = choose|m: MonitorInfo|
        input.live_monitors.contains(m) && #[trigger] is_auto_target(input, m) && m.device_name@
            == auto_slots(input, pool, monitors)[id].monitor;
    assert(!has_fixed_cell(input, m.device_name@));
    assert(input.fixed_slots[i].monitor_id@ == input.fixed_slots[i].monitor_id@);
}

/// On its monitor a set keeps the cell that it held before, as long as there are that many cells
/// and nobody else there held the same.
pub proof fn law_cell_is_kept_on_the_monitor(
    saved: Seq<SavedMonitor>,
    monitors: Seq<MonitorInfo>,
    previous: Map<Uuid, SlotView>,
    pool: Seq<Uuid>,
    i: int,
    id: Uuid,
)
    requires
        pool.no_duplicates(),
        0 <= i < monitors.len(),
        occupancy(saved, monitors, previous, pool)[i].contains(id),
        previous.contains_key(id),
        previous[id].monitor == monitors[i].device_name@,
        0 <= previous[id].cell < occupancy(saved, monitors, previous, pool)[i].len(),
        forall|x: Uuid|
            occupancy(saved, monitors, previous, pool)[i].contains(x) && x != id
                && #[trigger] previous.contains_key(x) ==> previous[x] != previous[id],
    ensures
        occupancy(saved, monitors, previous, pool)[i][previous[id].cell] == id,
{
    lemma_occupancy(saved, monitors, previous, pool);
    lemma_occupancy_apart(saved, monitors, previous, pool);
    lemma_seated(saved, monitors, previous, pool);
    lemma_capacity_bound(saved, monitors[i]);
    let on = joined(saved, monitors, previous, pool);
    let held = occupancy(saved, monitors, previous, pool);
    let name = monitors[i].device_name@;
    lemma_apart_list(on, i);
    assert(on[i].len() <= monitor_capacity(saved, monitors[i]));
    assert(on[i].contains(id) && held[i].len() == on[i].len()) by {
        assert(held[i].contains(id));
    }
    assert forall|j: int| 0 <= j < on[i].len() implies pool.contains(#[trigger] on[i][j]) by {}
    assert forall|j: int|
        0 <= j < on[i].len() && #[trigger] on[i][j] != id implies !parking_seats::claims(
        previous,
        name,
        on[i][j],
        previous[id].cell,
    ) by {
        assert(on[i].contains(on[i][j]));
        assert(held[i].contains(on[i][j]));
        if previous.contains_key(on[i][j]) {
            assert(previous[on[i][j]] != previous[id]);
        }
    }
    parking_seats::lemma_sole_claimant_is_seated(previous, name, pool, on[i], id);
}

/// A set that stays on its monitor keeps the cell that it held before, as long as that cell is
/// dealt out at all and nobody else held it.
pub proof fn law_set_keeps_its_cell(input: AllocationView, id: Uuid, other: Uuid)
    requires
        input.worksets.len() <= usize::MAX,
        input.live_monitors.len() <= usize::MAX,
        distinct_sets(input.worksets),
        distinct_names(input.live_monitors),
        allocation(input).1.contains_key(id),
        input.previous.contains_key(id),
        allocation(input).1[id].monitor == input.previous[id].monitor,
        allocation(input).1.contains_key(other),
        allocation(input).1[other] == input.previous[id],
        forall|x: Uuid|
            x != id && #[trigger] input.previous.contains_key(x) ==> input.previous[x]
                != input.previous[id],
    ensures
        allocation(input).1[id] == input.previous[id],
        other == id,
{
    let (pool, monitors) = lemma_allocation_parts(input);
    let saved = input.saved_monitors;
    let previous = input.previous;
    let held = occupancy(saved, monitors, previous, pool);
    lemma_pool_distinct(input, pool);
    lemma_targets_in_order(input, monitors);
    lemma_occupancy(saved, monitors, previous, pool);
    lemma_occupancy_apart(saved, monitors, previous, pool);
    assert(auto_slots(input, pool, monitors) == held_slots(monitors, held));
    let (i, k) = lemma_slot_is_held(monitors, held, id);
    let (j, l) = lemma_slot_is_held(monitors, held, other);
    assert(i == j) by {
        lemma_name_index(monitors, i);
        lemma_name_index(monitors, j);
    }
    assert(held[i].contains(id));
    law_cell_is_kept_on_the_monitor(saved, monitors, previous, pool, i, id);
    assert(held[i][l] == id);
    lemma_held_slot(monitors, held, i, l);
}

/// `input` with other places before it.
pub open spec fn with_previous(
    input: AllocationView,
    previous: Map<Uuid, SlotView>,
) -> AllocationView {
    AllocationView { previous, ..input }
}

/// Feeding the slots of an allocation back in gives the same allocation again.
pub proof fn law_next_allocation_is_the_same(input: AllocationView)
    requires
        input.worksets.len() <= usize::MAX,
        input.live_monitors.len() <= usize::MAX,
        distinct_sets(input.worksets),
        distinct_names(input.live_monitors),
    ensures
        allocation(with_previous(input, allocation(input).1)) == allocation(input),
{
    let (pool, monitors) = lemma_allocation_parts(input);
    let saved = input.saved_monitors;
    let held = occupancy(saved, monitors, input.previous, pool);
    let slots = allocation(input).1;
    let next = with_previous(input, slots);
    lemma_pool_distinct(input, pool);
    lemma_targets_in_order(input, monitors);
    assert(slots == held_slots(monitors, held));
    law_allocation_is_settled(saved, monitors, input.previous, pool);
    assert((|w: Workset| is_auto_parked(next, w)) =~= (|w: Workset| is_auto_parked(input, w)));
    assert forall|m: MonitorInfo| #[trigger] is_auto_target(next, m) == is_auto_target(input, m) by {
        assert(has_fixed_cell(next, m.device_name@) == has_fixed_cell(input, m.device_name@));
    }
    assert((|m: MonitorInfo| is_auto_target(next, m)) =~= (|m: MonitorInfo|
        is_auto_target(input, m)));
    assert(auto_members(next) == auto_members(input));
    assert(auto_targets(next) == auto_targets(input));
    assert(is_pool(next, pool));
    lemma_same_fixed_places(input, slots, input.worksets.len());
    assert(all_places(next, pool, monitors) == all_places(input, pool, monitors));
    assert(auto_slots(next, pool, monitors) == auto_slots(input, pool, monitors));
    assert(is_allocation(next, allocation(input).0, slots));
    lemma_allocation_is(next, allocation(input).0, slots);
}

proof fn lemma_same_fixed_places(input: AllocationView, previous: Map<Uuid, SlotView>, n: nat)
    requires
        n <= input.worksets.len(),
    ensures
        fixed_places(with_previous(input, previous), n) == fixed_places(input, n),
    decreases n,
{
    if n > 0 {
        lemma_same_fixed_places(input, previous, (n - 1) as nat);
        let next = with_previous(input, previous);
        let w = input.worksets[n - 1];
        assert(fixed_slot_of(next, w) == fixed_slot_of(input, w));
    }
}

proof fn lemma_designated_place(input: AllocationView, n: nat, i: int)
    requires
        i < n <= input.worksets.len(),
        0 <= i,
        distinct_sets(input.worksets),
        not_current(input, input.worksets[i]),
        fixed_slot_of(input, input.worksets[i]) is Some,
    ensures
        fixed_places(input, n).contains_key(input.worksets[i].id),
        fixed_places(input, n)[input.worksets[i].id] == fixed_assignment(
            input,
            fixed_slot_of(input, input.worksets[i])->0,
        ),
    decreases n,
{
    if i < n - 1 {
        lemma_designated_place(input, (n - 1) as nat, i);
        assert(input.worksets[i].id != input.worksets[n - 1].id);
    }
}

/// A set with a designated cell always parks in that cell, whichever other sets are parked and
/// wherever they were before.
pub proof fn law_designated_set_keeps_its_cell(input: AllocationView, i: int)
    requires
        input.worksets.len() <= usize::MAX,
        input.live_monitors.len() <= usize::MAX,
        distinct_sets(input.worksets),
        0 <= i < input.worksets.len(),
        not_current(input, input.worksets[i]),
        fixed_slot_of(input, input.worksets[i]) is Some,
    ensures
        allocation(input).0.contains_key(input.worksets[i].id),
        allocation(input).0[input.worksets[i].id] == fixed_assignment(
            input,
            fixed_slot_of(input, input.worksets[i])->0,
        ),
{
    lemma_allocation_exists(input);
    let places = allocation(input).0;
    let (pool, monitors) = choose|pool: Seq<Uuid>, monitors: Seq<MonitorInfo>|
        {
            &&& #[trigger] is_pool(input, pool)
            &&& #[trigger] monitor_resolution::in_reading_order(monitors, auto_targets(input))
            &&& places == all_places(input, pool, monitors)
            &&& allocation(input).1 == auto_slots(input, pool, monitors)
        };
    let w = input.worksets[i];
    let held = occupancy(input.saved_monitors, monitors, input.previous, pool);
    lemma_occupancy(input.saved_monitors, monitors, input.previous, pool);
    lemma_pool(input, pool);
    assert(!pool.contains(w.id)) by {
        if pool.contains(w.id) {
            let a = choose|a: int| 0 <= a < pool.len() && pool[a] == w.id;
            assert(is_member_id(input, pool[a]));
            let j = choose|j: int|
                0 <= j < input.worksets.len() && (#[trigger] input.worksets[j]).id == w.id
                    && is_auto_parked(input, input.worksets[j]);
            assert(j == i) by {
                if j < i {
                    assert(input.worksets[j].id != input.worksets[i].id);
                } else if i < j {
                    assert(input.worksets[i].id != input.worksets[j].id);
                }
            }
        }
    }
    let fixed = fixed_places(input, input.worksets.len());
    lemma_designated_place(input, input.worksets.len(), i);
    let base = auto_places(fixed, monitors, held, monitors.len());
    lemma_auto_places_keep(fixed, monitors, held, monitors.len(), w.id);
    lemma_auto_places(fixed, monitors, held, monitors.len(), w.id);
    if !(base[w.id] == fixed[w.id]) {
        let (m, k) = choose|m: int, k: int|
            m < monitors.len() && #[trigger] holds_cell(monitors, held, w.id, base[w.id], m, k);
        assert(pool.contains(held[m][k]));
    }
    lemma_overflow_places(base, held, pool, pool.len(), w.id);
}

proof fn lemma_places_on_keep(
    base: Map<Uuid, AssignmentView>,
    m: MonitorInfo,
    held: Seq<Uuid>,
    k: nat,
    id: Uuid,
)
    requires
        base.contains_key(id),
    ensures
        places_on(base, m, held, k).contains_key(id),
    decreases k,
{
    if k > 0 {
        lemma_places_on_keep(base, m, held, (k - 1) as nat, id);
    }
}

proof fn lemma_auto_places_keep(
    base: Map<Uuid, AssignmentView>,
    monitors: Seq<MonitorInfo>,
    held: Seq<Seq<Uuid>>,
    n: nat,
    id: Uuid,
)
    requires
        base.contains_key(id),
    ensures
        auto_places(base, monitors, held, n).contains_key(id),
    decreases n,
{
    if n > 0 {
        lemma_auto_places_keep(base, monitors, held, (n - 1) as nat, id);
        lemma_places_on_keep(
            auto_places(base, monitors, held, (n - 1) as nat),
            monitors[n - 1],
            held[n - 1],
            held[n - 1].len(),
            id,
        );
    }
}

} // verus!
