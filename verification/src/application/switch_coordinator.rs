//! Switching from one set to another: which windows go where, in which order, what is written
//! down before, and how a failed switch is taken back.
//!
//! A switch has two halves. The first decides and captures, and hands back a journal; once that is
//! on disk the second half moves the windows.

use vstd::prelude::*;
use std::collections::{HashMap, HashSet};

use crate::application::main_placement;
use crate::application::main_placement::RestoreOutcome;
use crate::application::monitor_resolution;
use crate::application::parking_allocator;
use crate::application::parking_allocator::{
    AllocationInput, AllocationView, AssignmentView, ParkAssignment, ParkingSlotId, SlotView,
};
use crate::application::parking_cells;
use crate::application::parking_placement;
use crate::application::parking_placement::ParkPlan;
use crate::application::recovery_service;
use crate::application::recovery_service::RecoveryReport;
use crate::application::sub_screens;
use crate::application::window_ops::{Recorder, WindowCall, WindowOps};
use crate::application::workset_service;
use crate::domain::monitor::{MonitorInfo, SavedMonitor};
use crate::domain::placement::{PixelRect, SavedShowState};
use crate::domain::runtime::{
    JournalStatus, JournalWindowEntry, JournalWindowState, RuntimeState, SwitchJournal,
    JOURNAL_SCHEMA_VERSION,
};
use crate::domain::workset::{FixedParkingSlot, ManagedWindow, ParkingPolicy, SubScreen, Workset};
use crate::ids;
use crate::ids::Uuid;
use crate::order;
use crate::text;
use crate::windowing::enumerate;
use crate::windowing::enumerate::TopLevelWindow;
use crate::windowing::matcher::{MatchDecision, MatchView, WindowMatching};

pub use crate::application::parking_cells::{
    distribute_parking, screen_capacity, smallest_cell_area, subdivide_for_count,
};
pub use crate::application::sub_screens::{
    stale_sub_occupants, sub_screen_sharer_count, sub_screen_slot_rect, sub_screen_target_rect,
};

verus! {

broadcast use vstd::std_specs::hash::group_hash_axioms;

/// Everything that a switch looks at.
pub struct SwitchRequest<'a> {
    pub worksets: &'a [Workset],
    pub fixed_slots: &'a [FixedParkingSlot],
    pub sub_screens: &'a [SubScreen],
    pub saved_monitors: &'a [SavedMonitor],
    pub main_monitor_ids: &'a [String],
    pub live_monitors: &'a [MonitorInfo],
    pub live_windows: &'a [TopLevelWindow],
    pub target_workset_id: Uuid,
}

/// A [`SwitchRequest`] as a mathematical value.
pub struct RequestView {
    pub worksets: Seq<Workset>,
    pub fixed_slots: Seq<FixedParkingSlot>,
    pub sub_screens: Seq<SubScreen>,
    pub saved_monitors: Seq<SavedMonitor>,
    pub main_monitor_ids: Seq<String>,
    pub live_monitors: Seq<MonitorInfo>,
    pub live_windows: Seq<TopLevelWindow>,
    pub target: Uuid,
}

impl<'a> View for SwitchRequest<'a> {
    type V = RequestView;

    open spec fn view(&self) -> RequestView {
        RequestView {
            worksets: self.worksets@,
            fixed_slots: self.fixed_slots@,
            sub_screens: self.sub_screens@,
            saved_monitors: self.saved_monitors@,
            main_monitor_ids: self.main_monitor_ids@,
            live_monitors: self.live_monitors@,
            live_windows: self.live_windows@,
            target: self.target_workset_id,
        }
    }
}

#[derive(Clone, Debug)]
pub struct SwitchOutcome {
    pub transaction_id: Uuid,
    pub new_current_workset_id: Uuid,
    pub focused_hwnd: Option<isize>,
}

/// Why a switch did not happen.
#[derive(Debug)]
pub enum SwitchError {
    AlreadyInProgress,
    TargetNotFound(Uuid),
    NoMainMonitor,
    /// The journal could not be written or cleared, with what was reported.
    Journal(String),
    CaptureFailed { hwnd: isize },
    /// The state between runs could not be written, with what was reported.
    Runtime(String),
    RolledBack { reason: String, unrecoverable_hwnds: Vec<isize> },
    RollbackFailed { reason: String, unrecoverable_hwnds: Vec<isize> },
}

impl SwitchError {
    pub open spec fn says(self) -> Seq<char> {
        match self {
            SwitchError::AlreadyInProgress => "a switch is already in progress"@,
            SwitchError::TargetNotFound(id) => "target workset "@ + ids::uuid_text(id)
                + " was not found"@,
            SwitchError::NoMainMonitor => "no live main monitor is available"@,
            SwitchError::Journal(cause) => "switch journal I/O failed: "@ + cause@,
            SwitchError::CaptureFailed { hwnd } => "failed to capture pre-switch state for hwnd "@
                + text::signed_decimal(hwnd as int),
            SwitchError::Runtime(cause) => "failed to persist runtime state: "@ + cause@,
            SwitchError::RolledBack { reason, .. } => "switch failed ("@ + reason@
                + ") and was rolled back to the pre-switch layout"@,
            SwitchError::RollbackFailed { reason, .. } => "switch failed ("@ + reason@
                + ") and rollback ALSO could not restore every window"@,
        }
    }

    /// What the user is told.
    pub fn message(&self) -> (r: String)
        ensures
            r@ == self.says(),
    {
        match self {
            SwitchError::AlreadyInProgress => text::owned("a switch is already in progress"),
            SwitchError::TargetNotFound(id) => {
                let name = ids::format_uuid(*id);
                text::joined3("target workset ", name.as_str(), " was not found")
            },
            SwitchError::NoMainMonitor => text::owned("no live main monitor is available"),
            SwitchError::Journal(cause) => text::joined2(
                "switch journal I/O failed: ",
                cause.as_str(),
            ),
            SwitchError::CaptureFailed { hwnd } => {
                let number = text::signed_decimal_text(*hwnd as i64);
                text::joined2("failed to capture pre-switch state for hwnd ", number.as_str())
            },
            SwitchError::Runtime(cause) => text::joined2(
                "failed to persist runtime state: ",
                cause.as_str(),
            ),
            SwitchError::RolledBack { reason, .. } => text::joined3(
                "switch failed (",
                reason.as_str(),
                ") and was rolled back to the pre-switch layout",
            ),
            SwitchError::RollbackFailed { reason, .. } => text::joined3(
                "switch failed (",
                reason.as_str(),
                ") and rollback ALSO could not restore every window",
            ),
        }
    }
}

// ---------------------------------------------------------------------------
// Windows found again
// ---------------------------------------------------------------------------

/// A registered window and the live window that it is.
pub struct ResolvedWindow<'a> {
    pub managed: &'a ManagedWindow,
    pub hwnd: isize,
    pub process_id: u32,
}

/// A [`ResolvedWindow`] as a mathematical value.
pub struct Resolved {
    pub managed: ManagedWindow,
    pub hwnd: isize,
    pub process_id: u32,
}

impl<'a> View for ResolvedWindow<'a> {
    type V = Resolved;

    open spec fn view(&self) -> Resolved {
        Resolved { managed: *self.managed, hwnd: self.hwnd, process_id: self.process_id }
    }
}

pub open spec fn resolved_view<'a>(s: Seq<ResolvedWindow<'a>>) -> Seq<Resolved> {
    Seq::new(s.len(), |i: int| s[i]@)
}

proof fn lemma_resolved_push<'a>(s: Seq<ResolvedWindow<'a>>, w: ResolvedWindow<'a>)
    ensures
        resolved_view(s.push(w)) == resolved_view(s).push(w@),
{
    assert(resolved_view(s.push(w)) =~= resolved_view(s).push(w@));
}

pub open spec fn process_of(live: Seq<TopLevelWindow>, hwnd: isize) -> u32 {
    match enumerate::live_at(live, hwnd) {
        Some(l) => l.process_id,
        None => 0,
    }
}

/// The windows of a set that were found again, in the set's order.
pub open spec fn resolved_of(
    windows: Seq<ManagedWindow>,
    decisions: Map<Uuid, MatchView>,
    live: Seq<TopLevelWindow>,
) -> Seq<Resolved>
    decreases windows.len(),
{
    if windows.len() == 0 {
        Seq::empty()
    } else {
        let before = resolved_of(windows.drop_last(), decisions, live);
        let w = windows.last();
        match workset_service::handle_of(decisions, w.id) {
            Some(hwnd) => before.push(
                Resolved { managed: w, hwnd, process_id: process_of(live, hwnd) },
            ),
            None => before,
        }
    }
}

fn resolved_windows<'a>(
    workset: &'a Workset,
    decisions: &HashMap<Uuid, MatchDecision>,
    live_windows: &[TopLevelWindow],
) -> (r: Vec<ResolvedWindow<'a>>)
    ensures
        resolved_view(r@) == resolved_of(
            workset.windows@,
            workset_service::decisions_view(decisions@),
            live_windows@,
        ),
{
    let ghost dv = workset_service::decisions_view(decisions@);
    let mut out: Vec<ResolvedWindow<'a>> = Vec::new();
    let mut i: usize = 0;
    assert(resolved_view(out@) =~= resolved_of(workset.windows@.take(0), dv, live_windows@));
    while i < workset.windows.len()
        invariant
            i <= workset.windows@.len(),
            dv == workset_service::decisions_view(decisions@),
            resolved_view(out@) == resolved_of(workset.windows@.take(i as int), dv, live_windows@),
        decreases workset.windows@.len() - i,
    {
        let managed = &workset.windows[i];
        proof {
            assert(workset.windows@.take(i + 1).drop_last() =~= workset.windows@.take(i as int));
        }
        if let Some(hwnd) = workset_service::settled_handle(decisions, managed.id) {
            let process_id: u32 = match enumerate::find_live(live_windows, hwnd) {
                Some(l) => l.process_id,
                None => 0,
            };
            let found = ResolvedWindow { managed, hwnd, process_id };
            proof {
                lemma_resolved_push(out@, found);
            }
            out.push(found);
        }
        i += 1;
    }
    assert(workset.windows@.take(workset.windows@.len() as int) =~= workset.windows@);
    out
}

/// The window that stands highest, the last of equals.
pub open spec fn front_index(ws: Seq<Resolved>) -> Option<int>
    decreases ws.len(),
{
    if ws.len() == 0 {
        None
    } else {
        match front_index(ws.drop_last()) {
            Some(b) => if ws.last().managed.z_order >= ws[b].managed.z_order {
                Some(ws.len() - 1)
            } else {
                Some(b)
            },
            None => Some(ws.len() - 1),
        }
    }
}

/// The handle of the window that stands highest.
pub open spec fn front_handle(ws: Seq<Resolved>) -> Option<isize> {
    match front_index(ws) {
        Some(i) => Some(ws[i].hwnd),
        None => None,
    }
}

proof fn lemma_front_index(ws: Seq<Resolved>)
    ensures
        match front_index(ws) {
            Some(b) => 0 <= b < ws.len() && forall|j: int|
                0 <= j < ws.len() ==> (#[trigger] ws[j]).managed.z_order < ws[b].managed.z_order || (
                ws[j].managed.z_order == ws[b].managed.z_order && j <= b),
            None => ws.len() == 0,
        },
    decreases ws.len(),
{
    if ws.len() > 0 {
        let rest = ws.drop_last();
        lemma_front_index(rest);
        if let Some(b) = front_index(rest) {
            assert(rest[b] == ws[b]);
            assert forall|j: int| 0 <= j < rest.len() implies (#[trigger] ws[j]).managed.z_order
                < ws[b].managed.z_order || (ws[j].managed.z_order == ws[b].managed.z_order && j
                <= b) by {
                assert(rest[j] == ws[j]);
            }
        }
    }
}

/// The focus goes to a window of the set that no other of its windows is higher than, and to none
/// only where the set has no window.
pub proof fn law_front_window_is_the_highest(ws: Seq<Resolved>)
    ensures
        match front_handle(ws) {
            Some(h) => exists|i: int|
                0 <= i < ws.len() && (#[trigger] ws[i]).hwnd == h && forall|j: int|
                    0 <= j < ws.len() ==> (#[trigger] ws[j]).managed.z_order
                        <= ws[i].managed.z_order,
            None => ws.len() == 0,
        },
{
    lemma_front_index(ws);
    if let Some(b) = front_index(ws) {
        assert(ws[b].hwnd == front_handle(ws)->0);
    }
}

fn frontmost(resolved: &Vec<ResolvedWindow>) -> (r: Option<isize>)
    ensures
        r == front_handle(resolved_view(resolved@)),
{
    let ghost rv = resolved_view(resolved@);
    let mut best: Option<usize> = None;
    let mut i: usize = 0;
    while i < resolved.len()
        invariant
            i <= resolved@.len(),
            rv == resolved_view(resolved@),
            match best {
                Some(b) => b < i && front_index(rv.take(i as int)) == Some(b as int),
                None => front_index(rv.take(i as int)) is None,
            },
        decreases resolved@.len() - i,
    {
        proof {
            assert(rv.take(i + 1).drop_last() =~= rv.take(i as int));
            assert(rv.take(i + 1).last() == resolved@[i as int]@);
        }
        match best {
            Some(b) => {
                assert(rv.take(i + 1)[b as int] == resolved@[b as int]@);
                if resolved[i].managed.z_order >= resolved[b].managed.z_order {
                    best = Some(i);
                }
            },
            None => {
                best = Some(i);
            },
        }
        i += 1;
    }
    assert(rv.take(rv.len() as int) =~= rv);
    match best {
        Some(b) => {
            assert(rv[b as int] == resolved@[b as int]@);
            Some(resolved[b].hwnd)
        },
        None => None,
    }
}

// ---------------------------------------------------------------------------
// Slots kept as texts
// ---------------------------------------------------------------------------

/// The slots that the kept texts stand for; entries that cannot be read are left out, and a
/// later entry of an id counts.
pub open spec fn decoded(entries: Seq<(String, String)>) -> Map<Uuid, SlotView>
    decreases entries.len(),
{
    if entries.len() == 0 {
        Map::empty()
    } else {
        let before = decoded(entries.drop_last());
        let (id, slot) = entries.last();
        match (ids::uuid_read(id@), parking_allocator::slot_read(slot@)) {
            (Some(i), Some(s)) => before.insert(i, s),
            _ => before,
        }
    }
}

pub(crate) fn decode_assignments(entries: &Vec<(String, String)>) -> (r: HashMap<Uuid, ParkingSlotId>)
    ensures
        parking_allocator::slots_view(r@) == decoded(entries@),
{
    let mut out: HashMap<Uuid, ParkingSlotId> = HashMap::new();
    let mut i: usize = 0;
    assert(parking_allocator::slots_view(out@) =~= decoded(entries@.take(0)));
    while i < entries.len()
        invariant
            i <= entries@.len(),
            parking_allocator::slots_view(out@) == decoded(entries@.take(i as int)),
        decreases entries@.len() - i,
    {
        proof {
            assert(entries@.take(i + 1).drop_last() =~= entries@.take(i as int));
            assert(entries@.take(i + 1).last() == entries@[i as int]);
        }
        if let Some(id) = ids::parse_uuid(entries[i].0.as_str()) {
            if let Some(slot) = ParkingSlotId::decode(entries[i].1.as_str()) {
                let ghost before = out@;
                let ghost sv = slot@;
                out.insert(id, slot);
                assert(parking_allocator::slots_view(out@) =~= parking_allocator::slots_view(
                    before,
                ).insert(id, sv));
            }
        }
        i += 1;
    }
    assert(entries@.take(entries@.len() as int) =~= entries@);
    out
}

/// Every entry is an id in its usual form with its slot's text.
pub open spec fn well_written(entries: Seq<(String, String)>, slots: Map<Uuid, SlotView>) -> bool {
    forall|i: int|
        0 <= i < entries.len() ==> exists|id: Uuid| #[trigger]
            slots.contains_key(id) && (#[trigger] entries[i]).0@ == ids::uuid_text(id)
                && entries[i].1@ == parking_allocator::slot_text(slots[id])
}

fn encode_assignments(map: &HashMap<Uuid, ParkingSlotId>) -> (r: Vec<(String, String)>)
    ensures
        decoded(r@) == parking_allocator::slots_view(map@),
        well_written(r@, parking_allocator::slots_view(map@)),
{
    let ghost sv = parking_allocator::slots_view(map@);
    let mut out: Vec<(String, String)> = Vec::new();
    for kv in it: map.iter()
        invariant
            sv == parking_allocator::slots_view(map@),
            forall|k: Uuid| #[trigger] map@.contains_key(k) ==> it.seq().contains((&k, &map@[k])),
            forall|i: int|
                #![trigger it.seq()[i]]
                0 <= i < it.seq().len() ==> map@.contains_key(*it.seq()[i].0)
                    && map@[*it.seq()[i].0] == *it.seq()[i].1,
            well_written(out@, sv),
            forall|i: int|
                #![trigger it.seq()[i]]
                0 <= i < it.index() ==> decoded(out@).contains_key(*it.seq()[i].0),
            forall|id: Uuid| #[trigger]
                decoded(out@).contains_key(id) ==> sv.contains_key(id) && decoded(out@)[id]
                    == sv[id],
    {
        let id: u128 = *kv.0;
        let name = ids::format_uuid(id);
        let slot = kv.1.encode();
        let ghost before = out@;
        proof {
            assert(map@[id] == *kv.1);
            parking_allocator::law_slot_round_trip(*kv.1);
        }
        out.push((name, slot));
        proof {
            assert(out@.drop_last() =~= before);
            assert(decoded(out@) == decoded(before).insert(id, kv.1@));
            assert forall|i: int| 0 <= i < out@.len() implies exists|k: Uuid| #[trigger]
                sv.contains_key(k) && (#[trigger] out@[i]).0@ == ids::uuid_text(k) && out@[i].1@
                    == parking_allocator::slot_text(sv[k]) by {
                if i < before.len() {
                    assert(out@[i] == before[i]);
                } else {
                    assert(sv.contains_key(id));
                }
            }
        }
    }
    proof {
        assert forall|id: Uuid| sv.contains_key(id) implies #[trigger] decoded(out@).contains_key(
            id,
        ) by {
            assert(map@.contains_key(id));
        }
        assert(decoded(out@) =~= sv);
    }
    out
}

// ---------------------------------------------------------------------------
// Placing one set into a cell
// ---------------------------------------------------------------------------

/// Where a window belongs on the main screen.
pub open spec fn main_place(req: RequestView, w: Resolved) -> Option<RestoreOutcome> {
    main_placement::restore_of(
        w.managed.main_placement,
        req.live_monitors,
        req.main_monitor_ids,
    )
}

/// Every window has a place on the main screen.
pub open spec fn all_have_place(req: RequestView, ws: Seq<Resolved>) -> bool {
    forall|i: int| 0 <= i < ws.len() ==> main_place(req, #[trigger] ws[i]) is Some
}

/// The rectangle that a lone window takes in a cell; none where it would be too small.
pub open spec fn fitted(rect: PixelRect, cell: PixelRect) -> Option<PixelRect> {
    let s = parking_placement::shrunk(seq![rect], cell);
    if parking_placement::some_too_small(s) {
        None
    } else {
        Some(s[0])
    }
}

/// What window `i` of a set takes of the area that the set is parked in; none where it is
/// minimized.
pub open spec fn share_of(
    req: RequestView,
    ws: Seq<Resolved>,
    area: PixelRect,
    i: int,
) -> Option<PixelRect> {
    let cells = parking_cells::cells_for(area, ws.len());
    if i < cells.len() {
        fitted(main_place(req, ws[i])->0.rect, cells[i])
    } else {
        None
    }
}

/// The first `n` windows that are minimized for want of room.
pub open spec fn minimized_first(
    req: RequestView,
    ws: Seq<Resolved>,
    area: PixelRect,
    n: nat,
) -> Seq<WindowCall>
    decreases n,
{
    if n == 0 {
        Seq::empty()
    } else {
        let before = minimized_first(req, ws, area, (n - 1) as nat);
        match share_of(req, ws, area, n - 1) {
            Some(_) => before,
            None => before.push(WindowCall::Minimize { hwnd: ws[n - 1].hwnd }),
        }
    }
}

/// The first `n` windows that are moved, with where to.
pub open spec fn moved_first(
    req: RequestView,
    ws: Seq<Resolved>,
    area: PixelRect,
    n: nat,
) -> Seq<(isize, PixelRect)>
    decreases n,
{
    if n == 0 {
        Seq::empty()
    } else {
        let before = moved_first(req, ws, area, (n - 1) as nat);
        match share_of(req, ws, area, n - 1) {
            Some(rect) => before.push((ws[n - 1].hwnd, rect)),
            None => before,
        }
    }
}

pub open spec fn fill_call(m: (isize, PixelRect)) -> WindowCall {
    WindowCall::SetPlacement { hwnd: m.0, rect: m.1, maximized: false, fill: true }
}

pub open spec fn fill_calls(moves: Seq<(isize, PixelRect)>) -> Seq<WindowCall> {
    Seq::new(moves.len(), |i: int| fill_call(moves[i]))
}

pub open spec fn handles(moves: Seq<(isize, PixelRect)>) -> Seq<isize> {
    Seq::new(moves.len(), |i: int| moves[i].0)
}

/// What parking one set comes to.
pub struct Parked {
    /// Whether it went through.
    pub ok: bool,
    pub calls: Seq<WindowCall>,
    /// The windows that are to be sent the full-screen keys in the end.
    pub keys: Seq<isize>,
    /// Where the sets are parked from now on.
    pub slots: Map<Uuid, SlotView>,
    /// Whether cells were dealt out anew.
    pub dealt: bool,
}

pub open spec fn minimize_all(ws: Seq<Resolved>) -> Seq<WindowCall> {
    Seq::new(ws.len(), |i: int| WindowCall::Minimize { hwnd: ws[i].hwnd })
}

/// A set parked in an area, its windows side by side.
pub open spec fn parked_in(
    req: RequestView,
    ws: Seq<Resolved>,
    area: PixelRect,
    fullscreen: bool,
    slots: Map<Uuid, SlotView>,
    dealt: bool,
) -> Parked {
    if ws.len() == 0 || !all_have_place(req, ws) {
        Parked { ok: ws.len() == 0, calls: Seq::empty(), keys: Seq::empty(), slots, dealt }
    } else {
        let moves = moved_first(req, ws, area, ws.len());
        Parked {
            ok: true,
            calls: minimized_first(req, ws, area, ws.len()) + fill_calls(moves),
            keys: if fullscreen {
                handles(moves)
            } else {
                Seq::empty()
            },
            slots,
            dealt,
        }
    }
}

pub open spec fn parked_nowhere(ws: Seq<Resolved>, slots: Map<Uuid, SlotView>, dealt: bool) -> Parked {
    Parked { ok: true, calls: minimize_all(ws), keys: Seq::empty(), slots, dealt }
}

/// The named area with the id, if any.
pub open spec fn area_with_id(subs: Seq<SubScreen>, id: Uuid) -> Option<SubScreen>
    decreases subs.len(),
{
    if subs.len() == 0 {
        None
    } else if subs[0].id == id {
        Some(subs[0])
    } else {
        area_with_id(subs.skip(1), id)
    }
}

/// The ids of all monitors of all named areas.
pub open spec fn area_monitors(subs: Seq<SubScreen>) -> Seq<Seq<char>>
    decreases subs.len(),
{
    if subs.len() == 0 {
        Seq::empty()
    } else {
        area_monitors(subs.drop_last()) + text::texts(subs.last().monitor_ids@)
    }
}

/// What the cells are dealt out by.
pub open spec fn dealing(
    req: RequestView,
    with_windows: Set<Uuid>,
    slots: Map<Uuid, SlotView>,
) -> AllocationView {
    AllocationView {
        worksets: req.worksets,
        current: Some(req.target),
        fixed_slots: req.fixed_slots,
        main_monitor_ids: req.main_monitor_ids,
        live_monitors: req.live_monitors,
        saved_monitors: req.saved_monitors,
        sub_screen_monitor_ids: area_monitors(req.sub_screens),
        previous: slots,
        with_windows,
    }
}

/// The set has its named area to itself and is meant to fill it.
pub open spec fn fills_area(req: RequestView, w: Workset, sub_screen_id: Uuid) -> bool {
    &&& sub_screens::sharers(req.worksets, sub_screen_id).len() <= 1
    &&& (w.fullscreen_when_parked || (area_with_id(req.sub_screens, sub_screen_id) matches Some(s)
        && s.fullscreen))
}

/// Where a set goes, and what is done about it.
pub open spec fn park_of(
    req: RequestView,
    with_windows: Set<Uuid>,
    slots: Map<Uuid, SlotView>,
    w: Workset,
    ws: Seq<Resolved>,
) -> Parked {
    match w.parking_policy {
        ParkingPolicy::SubScreen { sub_screen_id } => {
            let cell = match area_with_id(req.sub_screens, sub_screen_id) {
                Some(sub) => sub_screens::slot_rect_of(sub, req.worksets, w.id, req.live_monitors),
                None => None,
            };
            match cell {
                Some(rect) => parked_in(
                    req,
                    ws,
                    rect,
                    fills_area(req, w, sub_screen_id),
                    slots,
                    false,
                ),
                None => parked_nowhere(ws, slots, false),
            }
        },
        _ => {
            let (places, dealt_slots) = parking_allocator::allocation(
                dealing(req, with_windows, slots),
            );
            if places.contains_key(w.id) {
                match places[w.id] {
                    AssignmentView::Auto(_, rect) => parked_in(
                        req,
                        ws,
                        rect,
                        w.fullscreen_when_parked,
                        dealt_slots,
                        true,
                    ),
                    AssignmentView::Fixed(_, rect) => parked_in(
                        req,
                        ws,
                        rect,
                        w.fullscreen_when_parked,
                        dealt_slots,
                        true,
                    ),
                    AssignmentView::Minimized => parked_nowhere(ws, dealt_slots, true),
                }
            } else {
                parked_nowhere(ws, dealt_slots, true)
            }
        },
    }
}

fn minimize_each<W: WindowOps>(ops: &mut Recorder<W>, resolved: &Vec<ResolvedWindow>)
    ensures
        final(ops).desktop() == old(ops).desktop(),
        final(ops).history() == old(ops).history() + minimize_all(resolved_view(resolved@)),
{
    let ghost start = ops.history();
    let ghost all = minimize_all(resolved_view(resolved@));
    let mut i: usize = 0;
    assert(start + all.take(0) =~= start);
    while i < resolved.len()
        invariant
            ops.desktop() == old(ops).desktop(),
            i <= resolved@.len(),
            all == minimize_all(resolved_view(resolved@)),
            ops.history() == start + all.take(i as int),
        decreases resolved@.len() - i,
    {
        ops.minimize(resolved[i].hwnd);
        proof {
            assert(all.take(i + 1) =~= all.take(i as int).push(all[i as int]));
        }
        i += 1;
    }
    assert(all.take(all.len() as int) =~= all);
}

pub(crate) fn fit_into(rect: PixelRect, cell: PixelRect) -> (r: Option<PixelRect>)
    ensures
        r == fitted(rect, cell),
{
    let one: Vec<PixelRect> = vec![rect];
    assert(one@ =~= seq![rect]);
    match parking_placement::plan_park_into_slot(one.as_slice(), cell) {
        ParkPlan::ShrinkToFit(rects) => {
            assert(rects@.len() == 1);
            Some(rects[0])
        },
        ParkPlan::MinimizeWhole => None,
    }
}

/// Why a set could not be parked.
pub open spec fn no_source_bounds() -> Seq<char> {
    "no live main monitor for parking source bounds"@
}

/// Parks the windows of a set side by side in `area`; one that would be too small, or finds no
/// cell, is minimized. Returns the windows to be sent the full-screen keys later.
fn place_workset_into_rect<W: WindowOps>(
    ops: &mut Recorder<W>,
    resolved: &Vec<ResolvedWindow>,
    request: &SwitchRequest,
    area: PixelRect,
    fullscreen: bool,
    Ghost(slots): Ghost<Map<Uuid, SlotView>>,
    Ghost(dealt): Ghost<bool>,
) -> (r: Result<Vec<isize>, String>)
    requires
        area.fits(),
    ensures
        final(ops).desktop() == old(ops).desktop(),
        ({
            let p = parked_in(request@, resolved_view(resolved@), area, fullscreen, slots, dealt);
            &&& final(ops).history() == old(ops).history() + p.calls
            &&& match r {
                Ok(keys) => p.ok && keys@ == p.keys,
                Err(reason) => !p.ok && reason@ == no_source_bounds(),
            }
        }),
{
    let ghost start = ops.history();
    let ghost rv = resolved_view(resolved@);
    let ghost req = request@;
    let none: Vec<isize> = Vec::new();
    assert(start + Seq::<WindowCall>::empty() =~= start);
    assert(none@ =~= Seq::<isize>::empty());
    if resolved.len() == 0 {
        return Ok(none);
    }
    let mut rects: Vec<PixelRect> = Vec::new();
    let mut i: usize = 0;
    while i < resolved.len()
        invariant
            ops.desktop() == old(ops).desktop(),
            i <= resolved@.len(),
            0 < resolved@.len(),
            rv == resolved_view(resolved@),
            req == request@,
            rects@.len() == i,
            ops.history() == start,
            start + Seq::<WindowCall>::empty() == start,
            forall|j: int|
                0 <= j < i ==> (main_place(req, #[trigger] rv[j]) matches Some(o) && o.rect
                    == rects@[j]),
        decreases resolved@.len() - i,
    {
        assert(rv[i as int] == resolved@[i as int]@);
        match main_placement::resolve_main_restore(
            &resolved[i].managed.main_placement,
            request.live_monitors,
            request.main_monitor_ids,
        ) {
            Some(outcome) => {
                rects.push(outcome.rect);
            },
            None => {
                assert(!all_have_place(req, rv));
                return Err(text::owned("no live main monitor for parking source bounds"));
            },
        }
        i += 1;
    }
    assert(all_have_place(req, rv));
    let n: usize = resolved.len();
    let cells = parking_cells::subdivide_for_count(area, n);
    let mut moves: Vec<(isize, PixelRect)> = Vec::new();
    let mut k: usize = 0;
    assert(start + minimized_first(req, rv, area, 0) =~= start);
    while k < n
        invariant
            ops.desktop() == old(ops).desktop(),
            k <= n == resolved@.len(),
            rv == resolved_view(resolved@),
            req == request@,
            rects@.len() == n,
            forall|j: int|
                0 <= j < n ==> (main_place(req, #[trigger] rv[j]) matches Some(o) && o.rect
                    == rects@[j]),
            cells@ == parking_cells::cells_for(area, n as nat),
            ops.history() == start + minimized_first(req, rv, area, k as nat),
            moves@ == moved_first(req, rv, area, k as nat),
        decreases n - k,
    {
        let ghost before = minimized_first(req, rv, area, k as nat);
        assert(rv[k as int] == resolved@[k as int]@);
        let share = if k < cells.len() {
            fit_into(rects[k], cells[k])
        } else {
            None
        };
        assert(share == share_of(req, rv, area, k as int));
        match share {
            Some(rect) => {
                moves.push((resolved[k].hwnd, rect));
            },
            None => {
                ops.minimize(resolved[k].hwnd);
                assert(start + before.push(WindowCall::Minimize { hwnd: rv[k as int].hwnd })
                    =~= (start + before).push(WindowCall::Minimize { hwnd: rv[k as int].hwnd }));
            },
        }
        k += 1;
    }
    let ghost first = minimized_first(req, rv, area, n as nat);
    let ghost fills = fill_calls(moves@);
    let mut keys: Vec<isize> = Vec::new();
    let mut m: usize = 0;
    assert(start + first + fills.take(0) =~= start + first);
    while m < moves.len()
        invariant
            ops.desktop() == old(ops).desktop(),
            m <= moves@.len(),
            fills == fill_calls(moves@),
            ops.history() == start + first + fills.take(m as int),
            keys@ == handles(moves@).take(m as int),
        decreases moves@.len() - m,
    {
        ops.set_placement(moves[m].0, moves[m].1, false, true);
        keys.push(moves[m].0);
        proof {
            assert(fills.take(m + 1) =~= fills.take(m as int).push(fills[m as int]));
            assert(start + first + fills.take(m + 1) =~= (start + first + fills.take(
                m as int,
            )).push(fills[m as int]));
            assert(handles(moves@).take(m + 1) =~= handles(moves@).take(m as int).push(
                moves@[m as int].0,
            ));
        }
        m += 1;
    }
    proof {
        assert(fills.take(fills.len() as int) =~= fills);
        assert(handles(moves@).take(moves@.len() as int) =~= handles(moves@));
        assert(start + first + fills =~= start + (first + fills));
    }
    if fullscreen {
        Ok(keys)
    } else {
        Ok(none)
    }
}

/// Looks up the named area with the id.
pub(crate) fn find_area(subs: &[SubScreen], id: Uuid) -> (r: Option<&SubScreen>)
    ensures
        match r {
            Some(s) => area_with_id(subs@, id) == Some(*s),
            None => area_with_id(subs@, id) is None,
        },
{
    let mut i: usize = 0;
    assert(subs@.skip(0) =~= subs@);
    while i < subs.len()
        invariant
            i <= subs@.len(),
            area_with_id(subs@, id) == area_with_id(subs@.skip(i as int), id),
        decreases subs@.len() - i,
    {
        if subs[i].id == id {
            return Some(&subs[i]);
        }
        assert(subs@.skip(i as int).skip(1) =~= subs@.skip(i + 1));
        i += 1;
    }
    None
}

/// All monitors of all named areas.
pub(crate) fn collect_area_monitors(subs: &[SubScreen]) -> (r: Vec<String>)
    ensures
        text::texts(r@) == area_monitors(subs@),
{
    let mut out: Vec<String> = Vec::new();
    let mut i: usize = 0;
    assert(text::texts(out@) =~= area_monitors(subs@.take(0)));
    while i < subs.len()
        invariant
            i <= subs@.len(),
            text::texts(out@) == area_monitors(subs@.take(i as int)),
        decreases subs@.len() - i,
    {
        proof {
            assert(subs@.take(i + 1).drop_last() =~= subs@.take(i as int));
        }
        let ghost before = text::texts(out@);
        let ghost names = text::texts(subs@[i as int].monitor_ids@);
        let mut k: usize = 0;
        assert(before + names.take(0) =~= before);
        while k < subs[i].monitor_ids.len()
            invariant
                i < subs@.len(),
                k <= subs@[i as int].monitor_ids@.len(),
                names == text::texts(subs@[i as int].monitor_ids@),
                text::texts(out@) == before + names.take(k as int),
            decreases subs@[i as int].monitor_ids@.len() - k,
        {
            let ghost so_far = out@;
            out.push(subs[i].monitor_ids[k].clone());
            proof {
                assert(text::texts(out@) =~= text::texts(so_far).push(names[k as int]));
                assert(names.take(k + 1) =~= names.take(k as int).push(names[k as int]));
            }
            k += 1;
        }
        assert(names.take(names.len() as int) =~= names);
        i += 1;
    }
    assert(subs@.take(subs@.len() as int) =~= subs@);
    out
}

/// Decides where a set parks and moves its windows there. Deals the cells out anew where the
/// set is parked as room allows or in a designated cell.
fn park_workset<W: WindowOps>(
    ops: &mut Recorder<W>,
    workset: &Workset,
    resolved: &Vec<ResolvedWindow>,
    request: &SwitchRequest,
    auto_slots: &mut Vec<(String, String)>,
    with_windows: &HashSet<Uuid>,
) -> (r: Result<Vec<isize>, String>)
    requires
        parking_allocator::monitors_fit(request.live_monitors@),
    ensures
        final(ops).desktop() == old(ops).desktop(),
        ({
            let p = park_of(
                request@,
                with_windows@,
                decoded(old(auto_slots)@),
                *workset,
                resolved_view(resolved@),
            );
            &&& final(ops).history() == old(ops).history() + p.calls
            &&& decoded(final(auto_slots)@) == p.slots
            &&& !p.dealt ==> final(auto_slots)@ == old(auto_slots)@
            &&& p.dealt ==> well_written(final(auto_slots)@, p.slots)
            &&& match r {
                Ok(keys) => p.ok && keys@ == p.keys,
                Err(reason) => !p.ok && reason@ == no_source_bounds(),
            }
        }),
{
    let ghost slots = decoded(auto_slots@);
    if let ParkingPolicy::SubScreen { sub_screen_id } = workset.parking_policy {
        let sub = find_area(request.sub_screens, sub_screen_id);
        let cell = match sub {
            Some(s) => sub_screens::sub_screen_slot_rect(
                s,
                request.worksets,
                workset.id,
                request.live_monitors,
            ),
            None => None,
        };
        let sole = sub_screens::sub_screen_sharer_count(request.worksets, sub_screen_id) <= 1;
        let area_fills = match sub {
            Some(s) => s.fullscreen,
            None => false,
        };
        let fullscreen = sole && (workset.fullscreen_when_parked || area_fills);
        return match cell {
            Some(rect) => place_workset_into_rect(
                ops,
                resolved,
                request,
                rect,
                fullscreen,
                Ghost(slots),
                Ghost(false),
            ),
            None => {
                minimize_each(ops, resolved);
                let none: Vec<isize> = Vec::new();
                assert(none@ =~= Seq::<isize>::empty());
                Ok(none)
            },
        };
    }
    let previous = decode_assignments(auto_slots);
    let area_ids = collect_area_monitors(request.sub_screens);
    let input = AllocationInput {
        worksets: request.worksets,
        current_workset_id: Some(request.target_workset_id),
        fixed_slots: request.fixed_slots,
        main_monitor_ids: request.main_monitor_ids,
        live_monitors: request.live_monitors,
        saved_monitors: request.saved_monitors,
        sub_screen_monitor_ids: area_ids.as_slice(),
        previous_assignments: &previous,
        worksets_with_windows: with_windows,
    };
    assert(input@ == dealing(request@, with_windows@, slots));
    let dealt = parking_allocator::allocate_parking(&input);
    let ghost dealt_slots = parking_allocator::slots_view(dealt.new_auto_slot_assignments@);
    *auto_slots = encode_assignments(&dealt.new_auto_slot_assignments);
    let place = dealt.assignments.get(&workset.id);
    proof {
        let pv = parking_allocator::places_view(dealt.assignments@);
        assert(parking_allocator::allocation(dealing(request@, with_windows@, slots)) == (
            pv,
            dealt_slots,
        ));
        if let Some(a) = place {
            assert(pv[workset.id] == a@);
            assert(parking_allocator::place_fits(a@));
        }
    }
    match place {
        Some(ParkAssignment::AutoSlot { slot: _, rect }) => place_workset_into_rect(
            ops,
            resolved,
            request,
            *rect,
            workset.fullscreen_when_parked,
            Ghost(dealt_slots),
            Ghost(true),
        ),
        Some(ParkAssignment::FixedSlot { slot: _, rect }) => place_workset_into_rect(
            ops,
            resolved,
            request,
            *rect,
            workset.fullscreen_when_parked,
            Ghost(dealt_slots),
            Ghost(true),
        ),
        _ => {
            minimize_each(ops, resolved);
            let none: Vec<isize> = Vec::new();
            assert(none@ =~= Seq::<isize>::empty());
            Ok(none)
        },
    }
}

// ---------------------------------------------------------------------------
// All sets that have to make room
// ---------------------------------------------------------------------------

/// A set that is parked, with its windows.
pub struct ParkedSet {
    pub set: Workset,
    pub windows: Seq<Resolved>,
}

/// A set that is parked, with its windows, in executable form.
pub struct ParkingSet<'a> {
    pub set: &'a Workset,
    pub windows: Vec<ResolvedWindow<'a>>,
}

impl<'a> View for ParkingSet<'a> {
    type V = ParkedSet;

    open spec fn view(&self) -> ParkedSet {
        ParkedSet { set: *self.set, windows: resolved_view(self.windows@) }
    }
}

pub open spec fn parking_view<'a>(s: Seq<ParkingSet<'a>>) -> Seq<ParkedSet> {
    Seq::new(s.len(), |i: int| s[i]@)
}

/// The sets other than the target that have live windows.
pub open spec fn sets_to_park(
    worksets: Seq<Workset>,
    target: Uuid,
    decisions: Map<Uuid, MatchView>,
    live: Seq<TopLevelWindow>,
) -> Seq<ParkedSet>
    decreases worksets.len(),
{
    if worksets.len() == 0 {
        Seq::empty()
    } else {
        let before = sets_to_park(worksets.drop_last(), target, decisions, live);
        let w = worksets.last();
        let windows = resolved_of(w.windows@, decisions, live);
        if w.id != target && windows.len() > 0 {
            before.push(ParkedSet { set: w, windows })
        } else {
            before
        }
    }
}

pub open spec fn set_ids(sets: Seq<ParkedSet>) -> Set<Uuid>
    decreases sets.len(),
{
    if sets.len() == 0 {
        Set::empty()
    } else {
        set_ids(sets.drop_last()).insert(sets.last().set.id)
    }
}

fn collect_sets_to_park<'a>(
    request: &SwitchRequest<'a>,
    decisions: &HashMap<Uuid, MatchDecision>,
) -> (r: Vec<ParkingSet<'a>>)
    ensures
        parking_view(r@) == sets_to_park(
            request.worksets@,
            request.target_workset_id,
            workset_service::decisions_view(decisions@),
            request.live_windows@,
        ),
{
    let ghost dv = workset_service::decisions_view(decisions@);
    let ghost live = request.live_windows@;
    let mut out: Vec<ParkingSet<'a>> = Vec::new();
    let mut i: usize = 0;
    assert(parking_view(out@) =~= sets_to_park(
        request.worksets@.take(0),
        request.target_workset_id,
        dv,
        live,
    ));
    while i < request.worksets.len()
        invariant
            i <= request.worksets@.len(),
            dv == workset_service::decisions_view(decisions@),
            live == request.live_windows@,
            parking_view(out@) == sets_to_park(
                request.worksets@.take(i as int),
                request.target_workset_id,
                dv,
                live,
            ),
        decreases request.worksets@.len() - i,
    {
        let w = &request.worksets[i];
        proof {
            assert(request.worksets@.take(i + 1).drop_last() =~= request.worksets@.take(i as int));
        }
        if w.id != request.target_workset_id {
            let windows = resolved_windows(w, decisions, request.live_windows);
            assert(resolved_view(windows@).len() == windows@.len());
            if windows.len() > 0 {
                let ghost before = out@;
                let entry = ParkingSet { set: w, windows };
                let ghost ev = entry@;
                out.push(entry);
                assert(parking_view(out@) =~= parking_view(before).push(ev));
            }
        }
        i += 1;
    }
    assert(request.worksets@.take(request.worksets@.len() as int) =~= request.worksets@);
    out
}

fn collect_set_ids(parking: &Vec<ParkingSet>) -> (r: HashSet<Uuid>)
    ensures
        r@ == set_ids(parking_view(parking@)),
{
    let mut out: HashSet<Uuid> = HashSet::new();
    let ghost pv = parking_view(parking@);
    let mut i: usize = 0;
    assert(out@ =~= set_ids(pv.take(0)));
    while i < parking.len()
        invariant
            i <= parking@.len(),
            pv == parking_view(parking@),
            out@ == set_ids(pv.take(i as int)),
        decreases parking@.len() - i,
    {
        proof {
            assert(pv.take(i + 1).drop_last() =~= pv.take(i as int));
            assert(pv.take(i + 1).last() == parking@[i as int]@);
        }
        out.insert(parking[i].set.id);
        i += 1;
    }
    assert(pv.take(pv.len() as int) =~= pv);
    out
}

/// What parking the first `n` sets comes to; it stops at the first that does not go through.
pub open spec fn parked_upto(
    req: RequestView,
    with_windows: Set<Uuid>,
    slots: Map<Uuid, SlotView>,
    sets: Seq<ParkedSet>,
    n: nat,
) -> Parked
    decreases n,
{
    if n == 0 {
        Parked { ok: true, calls: Seq::empty(), keys: Seq::empty(), slots, dealt: false }
    } else {
        let b = parked_upto(req, with_windows, slots, sets, (n - 1) as nat);
        if !b.ok {
            b
        } else {
            let p = park_of(req, with_windows, b.slots, sets[n - 1].set, sets[n - 1].windows);
            Parked {
                ok: p.ok,
                calls: b.calls + p.calls,
                keys: b.keys + p.keys,
                slots: p.slots,
                dealt: b.dealt || p.dealt,
            }
        }
    }
}

proof fn lemma_parked_stays_failed(
    req: RequestView,
    with_windows: Set<Uuid>,
    slots: Map<Uuid, SlotView>,
    sets: Seq<ParkedSet>,
    m: nat,
    n: nat,
)
    requires
        m <= n,
        !parked_upto(req, with_windows, slots, sets, m).ok,
    ensures
        parked_upto(req, with_windows, slots, sets, n) == parked_upto(
            req,
            with_windows,
            slots,
            sets,
            m,
        ),
    decreases n,
{
    if m < n {
        lemma_parked_stays_failed(req, with_windows, slots, sets, m, (n - 1) as nat);
    }
}

// ---------------------------------------------------------------------------
// Windows that sit where another one is about to be parked
// ---------------------------------------------------------------------------

/// Every managed window that is live, with where it is now.
pub open spec fn managed_live(
    windows: Seq<ManagedWindow>,
    decisions: Map<Uuid, MatchView>,
    live: Seq<TopLevelWindow>,
) -> Seq<(isize, PixelRect)>
    decreases windows.len(),
{
    if windows.len() == 0 {
        Seq::empty()
    } else {
        let before = managed_live(windows.drop_last(), decisions, live);
        match workset_service::handle_of(decisions, windows.last().id) {
            Some(hwnd) => match enumerate::live_at(live, hwnd) {
                Some(l) => before.push((hwnd, l.rect_px)),
                None => before,
            },
            None => before,
        }
    }
}

/// The registered windows behind those of `managed_live`, one for one.
pub open spec fn managed_holders(
    windows: Seq<ManagedWindow>,
    decisions: Map<Uuid, MatchView>,
    live: Seq<TopLevelWindow>,
) -> Seq<Resolved>
    decreases windows.len(),
{
    if windows.len() == 0 {
        Seq::empty()
    } else {
        let before = managed_holders(windows.drop_last(), decisions, live);
        match workset_service::handle_of(decisions, windows.last().id) {
            Some(hwnd) => match enumerate::live_at(live, hwnd) {
                Some(l) => before.push(
                    Resolved { managed: windows.last(), hwnd, process_id: l.process_id },
                ),
                None => before,
            },
            None => before,
        }
    }
}

/// The first of the windows with the handle.
pub open spec fn holder_of(ws: Seq<Resolved>, hwnd: isize) -> Option<Resolved>
    decreases ws.len(),
{
    if ws.len() == 0 {
        None
    } else if ws[0].hwnd == hwnd {
        Some(ws[0])
    } else {
        holder_of(ws.skip(1), hwnd)
    }
}

pub open spec fn handle_set(ws: Seq<Resolved>) -> Set<isize>
    decreases ws.len(),
{
    if ws.len() == 0 {
        Set::empty()
    } else {
        handle_set(ws.drop_last()).insert(ws.last().hwnd)
    }
}

/// The one listing of the windows that have to leave `cell`.
pub open spec fn stale_list(
    cell: PixelRect,
    incoming: Set<isize>,
    managed: Seq<(isize, PixelRect)>,
) -> Seq<isize> {
    choose|s: Seq<isize>| sub_screens::lists_stale(s, cell, incoming, managed)
}

/// The cell of its named area that the outgoing set parks into.
pub open spec fn outgoing_cell(req: RequestView, current: Option<Workset>) -> Option<PixelRect> {
    match current {
        None => None,
        Some(c) => match c.parking_policy {
            ParkingPolicy::SubScreen { sub_screen_id } => match area_with_id(
                req.sub_screens,
                sub_screen_id,
            ) {
                Some(sub) => sub_screens::slot_rect_of(sub, req.worksets, c.id, req.live_monitors),
                None => None,
            },
            _ => None,
        },
    }
}

/// The windows of other sets that sit in the cell which the outgoing set is about to take.
pub open spec fn evictees_of(
    req: RequestView,
    decisions: Map<Uuid, MatchView>,
    current: Option<Workset>,
    incoming: Set<isize>,
) -> Seq<Resolved> {
    match outgoing_cell(req, current) {
        None => Seq::empty(),
        Some(cell) => {
            let windows = workset_service::all_windows(req.worksets);
            let managed = managed_live(windows, decisions, req.live_windows);
            let holders = managed_holders(windows, decisions, req.live_windows);
            let stale = stale_list(cell, incoming, managed);
            Seq::new(stale.len(), |i: int| holder_of(holders, stale[i])->0)
        },
    }
}

fn collect_handles(a: &Vec<ResolvedWindow>, into: &mut HashSet<isize>)
    ensures
        final(into)@ == old(into)@.union(handle_set(resolved_view(a@))),
{
    let ghost start = into@;
    let ghost av = resolved_view(a@);
    let mut i: usize = 0;
    assert(start =~= start.union(handle_set(av.take(0))));
    while i < a.len()
        invariant
            i <= a@.len(),
            av == resolved_view(a@),
            into@ == start.union(handle_set(av.take(i as int))),
        decreases a@.len() - i,
    {
        proof {
            assert(av.take(i + 1).drop_last() =~= av.take(i as int));
            assert(av.take(i + 1).last() == a@[i as int]@);
        }
        let ghost before = into@;
        into.insert(a[i].hwnd);
        assert(into@ =~= start.union(handle_set(av.take(i + 1))));
        i += 1;
    }
    assert(av.take(av.len() as int) =~= av);
}

pub proof fn lemma_holder_exists(
    windows: Seq<ManagedWindow>,
    decisions: Map<Uuid, MatchView>,
    live: Seq<TopLevelWindow>,
)
    ensures
        managed_live(windows, decisions, live).len() == managed_holders(
            windows,
            decisions,
            live,
        ).len(),
        forall|i: int|
            0 <= i < managed_live(windows, decisions, live).len() ==> (#[trigger] managed_live(
                windows,
                decisions,
                live,
            )[i]).0 == managed_holders(windows, decisions, live)[i].hwnd,
    decreases windows.len(),
{
    if windows.len() > 0 {
        lemma_holder_exists(windows.drop_last(), decisions, live);
        let a = managed_live(windows, decisions, live);
        let b = managed_holders(windows, decisions, live);
        let a0 = managed_live(windows.drop_last(), decisions, live);
        let b0 = managed_holders(windows.drop_last(), decisions, live);
        assert forall|i: int| 0 <= i < a.len() implies (#[trigger] a[i]).0 == b[i].hwnd by {
            if i < a0.len() {
                assert(a[i] == a0[i] && b[i] == b0[i]);
            }
        }
    }
}

proof fn lemma_holder_of(ws: Seq<Resolved>, i: int)
    requires
        0 <= i < ws.len(),
    ensures
        holder_of(ws, ws[i].hwnd) is Some,
    decreases ws.len(),
{
    if ws[0].hwnd != ws[i].hwnd {
        assert(ws.skip(1)[i - 1] == ws[i]);
        lemma_holder_of(ws.skip(1), i - 1);
    }
}

fn find_holder<'a>(holders: &Vec<ResolvedWindow<'a>>, hwnd: isize) -> (r: Option<
    ResolvedWindow<'a>,
>)
    ensures
        match r {
            Some(w) => holder_of(resolved_view(holders@), hwnd) == Some(w@),
            None => holder_of(resolved_view(holders@), hwnd) is None,
        },
{
    let ghost hv = resolved_view(holders@);
    let mut i: usize = 0;
    assert(hv.skip(0) =~= hv);
    while i < holders.len()
        invariant
            i <= holders@.len(),
            hv == resolved_view(holders@),
            holder_of(hv, hwnd) == holder_of(hv.skip(i as int), hwnd),
        decreases holders@.len() - i,
    {
        assert(hv.skip(i as int)[0] == holders@[i as int]@);
        if holders[i].hwnd == hwnd {
            let w = &holders[i];
            return Some(
                ResolvedWindow { managed: w.managed, hwnd: w.hwnd, process_id: w.process_id },
            );
        }
        assert(hv.skip(i as int).skip(1) =~= hv.skip(i + 1));
        i += 1;
    }
    None
}

/// The managed windows that are live, and the registrations behind them.
fn collect_managed<'a>(
    worksets: &'a [Workset],
    decisions: &HashMap<Uuid, MatchDecision>,
    live_windows: &[TopLevelWindow],
) -> (r: (Vec<(isize, PixelRect)>, Vec<ResolvedWindow<'a>>))
    ensures
        r.0@ == managed_live(
            workset_service::all_windows(worksets@),
            workset_service::decisions_view(decisions@),
            live_windows@,
        ),
        resolved_view(r.1@) == managed_holders(
            workset_service::all_windows(worksets@),
            workset_service::decisions_view(decisions@),
            live_windows@,
        ),
{
    let ghost dv = workset_service::decisions_view(decisions@);
    let mut managed: Vec<(isize, PixelRect)> = Vec::new();
    let mut holders: Vec<ResolvedWindow<'a>> = Vec::new();
    let mut i: usize = 0;
    let ghost mut done = Seq::<ManagedWindow>::empty();
    proof {
        assert(workset_service::all_windows(worksets@.take(0)) =~= done);
        assert(resolved_view(holders@) =~= managed_holders(done, dv, live_windows@));
    }
    while i < worksets.len()
        invariant
            i <= worksets@.len(),
            dv == workset_service::decisions_view(decisions@),
            done == workset_service::all_windows(worksets@.take(i as int)),
            managed@ == managed_live(done, dv, live_windows@),
            resolved_view(holders@) == managed_holders(done, dv, live_windows@),
        decreases worksets@.len() - i,
    {
        let ws = &worksets[i];
        proof {
            assert(worksets@.take(i + 1).drop_last() =~= worksets@.take(i as int));
        }
        let ghost before = done;
        let mut k: usize = 0;
        assert(before + ws.windows@.take(0) =~= before);
        while k < ws.windows.len()
            invariant
                k <= ws.windows@.len(),
                dv == workset_service::decisions_view(decisions@),
                done == before + ws.windows@.take(k as int),
                managed@ == managed_live(done, dv, live_windows@),
                resolved_view(holders@) == managed_holders(done, dv, live_windows@),
            decreases ws.windows@.len() - k,
        {
            let mw = &ws.windows[k];
            proof {
                let next = before + ws.windows@.take(k + 1);
                assert(next.drop_last() =~= done);
                assert(next.last() == *mw);
                done = next;
            }
            if let Some(hwnd) = workset_service::settled_handle(decisions, mw.id) {
                if let Some(l) = enumerate::find_live(live_windows, hwnd) {
                    managed.push((hwnd, l.rect_px));
                    let holder = ResolvedWindow { managed: mw, hwnd, process_id: l.process_id };
                    proof {
                        lemma_resolved_push(holders@, holder);
                    }
                    holders.push(holder);
                }
            }
            k += 1;
        }
        assert(ws.windows@.take(ws.windows@.len() as int) =~= ws.windows@);
        i += 1;
    }
    assert(worksets@.take(worksets@.len() as int) =~= worksets@);
    (managed, holders)
}

/// The windows that have to leave the cell which the outgoing set is about to take.
fn resolve_sub_evictees<'a>(
    request: &SwitchRequest<'a>,
    decisions: &HashMap<Uuid, MatchDecision>,
    current: Option<&Workset>,
    incoming: &HashSet<isize>,
) -> (r: Vec<ResolvedWindow<'a>>)
    requires
        parking_allocator::monitors_fit(request.live_monitors@),
    ensures
        resolved_view(r@) == evictees_of(
            request@,
            workset_service::decisions_view(decisions@),
            match current {
                Some(c) => Some(*c),
                None => None,
            },
            incoming@,
        ),
{
    let ghost dv = workset_service::decisions_view(decisions@);
    let mut out: Vec<ResolvedWindow<'a>> = Vec::new();
    assert(resolved_view(out@) =~= Seq::<Resolved>::empty());
    let cell = match current {
        None => None,
        Some(c) => match c.parking_policy {
            ParkingPolicy::SubScreen { sub_screen_id } => match find_area(
                request.sub_screens,
                sub_screen_id,
            ) {
                Some(sub) => sub_screens::sub_screen_slot_rect(
                    sub,
                    request.worksets,
                    c.id,
                    request.live_monitors,
                ),
                None => None,
            },
            _ => None,
        },
    };
    let cell = match cell {
        Some(rect) => rect,
        None => {
            return out;
        },
    };
    let (managed, holders) = collect_managed(request.worksets, decisions, request.live_windows);
    let stale = sub_screens::stale_sub_occupants(cell, incoming, managed.as_slice());
    let ghost hv = resolved_view(holders@);
    let ghost all = Seq::new(stale@.len(), |i: int| holder_of(hv, stale@[i])->0);
    proof {
        let list = stale_list(cell, incoming@, managed@);
        assert(sub_screens::lists_stale(stale@, cell, incoming@, managed@));
        sub_screens::lemma_stale_unique(stale@, list, cell, incoming@, managed@);
        lemma_holder_exists(
            workset_service::all_windows(request.worksets@),
            dv,
            request.live_windows@,
        );
        assert forall|i: int| 0 <= i < stale@.len() implies holder_of(
            hv,
            #[trigger] stale@[i],
        ) is Some by {
            assert(stale@.contains(stale@[i]));
            assert(sub_screens::is_stale(cell, incoming@, managed@, stale@[i]));
            let k = choose|k: int| 0 <= k < managed@.len() && (#[trigger] managed@[k]).0 == stale@[i];
            assert(hv[k].hwnd == stale@[i]);
            lemma_holder_of(hv, k);
        }
    }
    let mut i: usize = 0;
    assert(resolved_view(out@) =~= all.take(0));
    while i < stale.len()
        invariant
            i <= stale@.len(),
            hv == resolved_view(holders@),
            all == Seq::new(stale@.len(), |i: int| holder_of(hv, stale@[i])->0),
            forall|k: int| 0 <= k < stale@.len() ==> holder_of(hv, #[trigger] stale@[k]) is Some,
            resolved_view(out@) == all.take(i as int),
        decreases stale@.len() - i,
    {
        if let Some(w) = find_holder(&holders, stale[i]) {
            proof {
                lemma_resolved_push(out@, w);
                assert(all.take(i + 1) =~= all.take(i as int).push(w@));
            }
            out.push(w);
        }
        i += 1;
    }
    assert(all.take(stale@.len() as int) =~= all);
    out
}

/// A monitor that an evicted window may go to.
pub open spec fn takes_evictees(req: RequestView, m: MonitorInfo) -> bool {
    &&& !monitor_resolution::names(req.main_monitor_ids, m.device_name@)
    &&& !parking_allocator::is_excluded(req.saved_monitors, m.device_name@)
    &&& !area_monitors(req.sub_screens).contains(m.device_name@)
}

/// The work areas of the first `n` monitors that evicted windows may go to.
pub open spec fn eviction_screens(req: RequestView, n: nat) -> Seq<PixelRect>
    decreases n,
{
    if n == 0 {
        Seq::empty()
    } else {
        let before = eviction_screens(req, (n - 1) as nat);
        let m = req.live_monitors[n - 1];
        if takes_evictees(req, m) {
            before.push(m.work_area_px)
        } else {
            before
        }
    }
}

pub open spec fn resolved_handles(ws: Seq<Resolved>) -> Seq<isize> {
    Seq::new(ws.len(), |i: int| ws[i].hwnd)
}

/// Moves an evicted window into its new cell, or minimizes it.
pub open spec fn eviction_call(live: Seq<TopLevelWindow>, m: (isize, PixelRect)) -> WindowCall {
    match enumerate::live_at(live, m.0) {
        Some(l) => match fitted(l.rect_px, m.1) {
            Some(rect) => fill_call((m.0, rect)),
            None => WindowCall::Minimize { hwnd: m.0 },
        },
        None => WindowCall::Minimize { hwnd: m.0 },
    }
}

/// What is done about the evicted windows.
pub open spec fn eviction_calls(req: RequestView, evictees: Seq<Resolved>) -> Seq<WindowCall> {
    if evictees.len() == 0 {
        Seq::empty()
    } else {
        let screens = eviction_screens(req, req.live_monitors.len());
        let (held, over) = parking_cells::spread(screens, resolved_handles(evictees));
        let placed = parking_cells::placements_upto(screens, held, screens.len());
        Seq::new(placed.len(), |i: int| eviction_call(req.live_windows, placed[i])) + Seq::new(
            over.len(),
            |i: int| WindowCall::Minimize { hwnd: over[i] },
        )
    }
}

/// Moves windows out of a cell into general parking; one that fits nowhere is minimized.
fn park_evictees<W: WindowOps>(
    ops: &mut Recorder<W>,
    evictees: &Vec<ResolvedWindow>,
    request: &SwitchRequest,
)
    requires
        parking_allocator::monitors_fit(request.live_monitors@),
    ensures
        final(ops).desktop() == old(ops).desktop(),
        final(ops).history() == old(ops).history() + eviction_calls(
            request@,
            resolved_view(evictees@),
        ),
{
    let ghost start = ops.history();
    let ghost ev = resolved_view(evictees@);
    let ghost req = request@;
    assert(start + Seq::<WindowCall>::empty() =~= start);
    if evictees.len() == 0 {
        return;
    }
    let area_ids = collect_area_monitors(request.sub_screens);
    let mut screens: Vec<PixelRect> = Vec::new();
    let mut i: usize = 0;
    while i < request.live_monitors.len()
        invariant
            ops.desktop() == old(ops).desktop(),
            i <= request.live_monitors@.len(),
            req == request@,
            parking_allocator::monitors_fit(request.live_monitors@),
            text::texts(area_ids@) == area_monitors(req.sub_screens),
            screens@ == eviction_screens(req, i as nat),
            parking_cells::all_fit(screens@),
        decreases request.live_monitors@.len() - i,
    {
        let m = &request.live_monitors[i];
        let name = m.device_name.as_str();
        proof {
            monitor_resolution::lemma_names_are_texts(area_ids@, m.device_name@);
            assert(request.live_monitors@[i as int].work_area_px.fits());
        }
        if !monitor_resolution::is_named(request.main_monitor_ids, name)
            && !parking_allocator::monitor_is_excluded(request.saved_monitors, name)
            && !monitor_resolution::is_named(area_ids.as_slice(), name) {
            screens.push(m.work_area_px);
        }
        i += 1;
    }
    let mut hwnds: Vec<isize> = Vec::new();
    let mut k: usize = 0;
    while k < evictees.len()
        invariant
            ops.desktop() == old(ops).desktop(),
            k <= evictees@.len(),
            ev == resolved_view(evictees@),
            hwnds@ == resolved_handles(ev).take(k as int),
        decreases evictees@.len() - k,
    {
        hwnds.push(evictees[k].hwnd);
        assert(hwnds@ =~= resolved_handles(ev).take(k + 1));
        k += 1;
    }
    assert(hwnds@ =~= resolved_handles(ev));
    let (placed, over) = parking_cells::distribute_parking(screens.as_slice(), hwnds.as_slice());
    let ghost a = Seq::new(placed@.len(), |i: int| eviction_call(req.live_windows, placed@[i]));
    let ghost b = Seq::new(over@.len(), |i: int| WindowCall::Minimize { hwnd: over@[i] });
    let mut p: usize = 0;
    assert(start + a.take(0) =~= start);
    while p < placed.len()
        invariant
            ops.desktop() == old(ops).desktop(),
            p <= placed@.len(),
            req == request@,
            a == Seq::new(placed@.len(), |i: int| eviction_call(req.live_windows, placed@[i])),
            ops.history() == start + a.take(p as int),
        decreases placed@.len() - p,
    {
        let hwnd: isize = placed[p].0;
        let fit = match enumerate::find_live(request.live_windows, hwnd) {
            Some(l) => fit_into(l.rect_px, placed[p].1),
            None => None,
        };
        match fit {
            Some(rect) => ops.set_placement(hwnd, rect, false, true),
            None => ops.minimize(hwnd),
        }
        proof {
            assert(a.take(p + 1) =~= a.take(p as int).push(a[p as int]));
            assert(start + a.take(p + 1) =~= (start + a.take(p as int)).push(a[p as int]));
        }
        p += 1;
    }
    assert(a.take(a.len() as int) =~= a);
    let mut q: usize = 0;
    assert(start + a + b.take(0) =~= start + a);
    while q < over.len()
        invariant
            ops.desktop() == old(ops).desktop(),
            q <= over@.len(),
            b == Seq::new(over@.len(), |i: int| WindowCall::Minimize { hwnd: over@[i] }),
            ops.history() == start + a + b.take(q as int),
        decreases over@.len() - q,
    {
        ops.minimize(over[q]);
        proof {
            assert(b.take(q + 1) =~= b.take(q as int).push(b[q as int]));
            assert(start + a + b.take(q + 1) =~= (start + a + b.take(q as int)).push(b[q as int]));
        }
        q += 1;
    }
    proof {
        assert(b.take(b.len() as int) =~= b);
        assert(start + a + b =~= start + (a + b));
        assert(eviction_calls(req, ev) =~= a + b);
    }
}

// ---------------------------------------------------------------------------
// Writing down how things were
// ---------------------------------------------------------------------------

/// The two questions whose answers make up an entry.
pub open spec fn capture_pair(e: JournalWindowEntry) -> Seq<WindowCall> {
    seq![
        WindowCall::NormalRect { hwnd: e.hwnd, found: Some(e.before.rect) },
        WindowCall::ShowState { hwnd: e.hwnd, found: Some(e.before.show_state) },
    ]
}

/// The questions behind all entries, in order.
pub open spec fn capture_calls(entries: Seq<JournalWindowEntry>) -> Seq<WindowCall>
    decreases entries.len(),
{
    if entries.len() == 0 {
        Seq::empty()
    } else {
        capture_calls(entries.drop_last()) + capture_pair(entries.last())
    }
}

/// The entries are those of the windows, one for one.
pub open spec fn entries_of(entries: Seq<JournalWindowEntry>, ws: Seq<Resolved>) -> bool {
    &&& entries.len() == ws.len()
    &&& forall|i: int|
        0 <= i < ws.len() ==> (#[trigger] entries[i]).managed_window_id == ws[i].managed.id
            && entries[i].hwnd == ws[i].hwnd && entries[i].process_id == ws[i].process_id
}

/// The questions about one window, of which one went unanswered.
pub open spec fn is_failed_capture(calls: Seq<WindowCall>, hwnd: isize) -> bool {
    ||| calls == seq![WindowCall::NormalRect { hwnd, found: None }]
    ||| exists|rect: PixelRect|
        calls == #[trigger] half_captured(hwnd, rect)
}

pub open spec fn half_captured(hwnd: isize, rect: PixelRect) -> Seq<WindowCall> {
    seq![
        WindowCall::NormalRect { hwnd, found: Some(rect) },
        WindowCall::ShowState { hwnd, found: None },
    ]
}

/// The windows up to one were captured, and that one could not be.
pub open spec fn stopped_at(
    calls: Seq<WindowCall>,
    ws: Seq<Resolved>,
    entries: Seq<JournalWindowEntry>,
    last: Seq<WindowCall>,
    k: int,
) -> bool {
    &&& 0 <= k < ws.len()
    &&& entries_of(entries, ws.take(k))
    &&& is_failed_capture(last, ws[k].hwnd)
    &&& calls == capture_calls(entries) + last
}

/// Between two moments the windows were captured in order, up to one that could not be.
pub open spec fn capture_stopped(
    before: Seq<WindowCall>,
    after: Seq<WindowCall>,
    ws: Seq<Resolved>,
    hwnd: isize,
) -> bool {
    exists|es: Seq<JournalWindowEntry>, last: Seq<WindowCall>, k: int|
        {
            &&& #[trigger] stopped_at(capture_calls(es) + last, ws, es, last, k)
            &&& hwnd == ws[k].hwnd
            &&& after == before + (capture_calls(es) + last)
        }
}

/// Asks how a window is shown now.
fn capture_journal_entry<W: WindowOps>(ops: &mut Recorder<W>, resolved: &ResolvedWindow) -> (r: Result<
    JournalWindowEntry,
    SwitchError,
>)
    ensures
        final(ops).desktop() == old(ops).desktop(),
        match r {
            Ok(e) => {
                &&& final(ops).history() == old(ops).history() + capture_pair(e)
                &&& e.managed_window_id == resolved.managed.id
                &&& e.hwnd == resolved.hwnd
                &&& e.process_id == resolved.process_id
            },
            Err(e) => {
                &&& e matches SwitchError::CaptureFailed { hwnd }
                &&& hwnd == resolved.hwnd
                &&& exists|last: Seq<WindowCall>| #[trigger]
                    is_failed_capture(last, resolved.hwnd) && final(ops).history()
                        == old(ops).history() + last
            },
        },
{
    let ghost start = ops.history();
    let hwnd: isize = resolved.hwnd;
    let rect = match ops.get_normal_rect(hwnd) {
        Ok(rect) => rect,
        Err(_) => {
            proof {
                let last = seq![WindowCall::NormalRect { hwnd, found: None }];
                assert(is_failed_capture(last, hwnd));
                assert(ops.history() =~= start + last);
            }
            return Err(SwitchError::CaptureFailed { hwnd });
        },
    };
    let show_state = match ops.get_show_state(hwnd) {
        Ok(state) => state,
        Err(_) => {
            proof {
                let last = half_captured(hwnd, rect);
                assert(is_failed_capture(last, hwnd));
                assert(ops.history() =~= start + last);
            }
            return Err(SwitchError::CaptureFailed { hwnd });
        },
    };
    let entry = JournalWindowEntry {
        managed_window_id: resolved.managed.id,
        hwnd,
        process_id: resolved.process_id,
        before: JournalWindowState { rect, show_state },
    };
    assert(ops.history() =~= start + capture_pair(entry));
    Ok(entry)
}

/// Captures some more windows.
fn capture_all<W: WindowOps>(
    ops: &mut Recorder<W>,
    resolved: &Vec<ResolvedWindow>,
    entries: &mut Vec<JournalWindowEntry>,
    Ghost(start): Ghost<Seq<WindowCall>>,
    Ghost(before): Ghost<Seq<Resolved>>,
) -> (r: Result<(), SwitchError>)
    requires
        entries_of(old(entries)@, before),
        old(ops).history() == start + capture_calls(old(entries)@),
    ensures
        final(ops).desktop() == old(ops).desktop(),
        match r {
            Ok(_) => {
                &&& entries_of(final(entries)@, before + resolved_view(resolved@))
                &&& final(ops).history() == start + capture_calls(final(entries)@)
            },
            Err(e) => {
                &&& e matches SwitchError::CaptureFailed { hwnd }
                &&& capture_stopped(
                    start,
                    final(ops).history(),
                    before + resolved_view(resolved@),
                    hwnd,
                )
            },
        },
{
    let ghost rv = resolved_view(resolved@);
    let mut i: usize = 0;
    assert(before + rv.take(0) =~= before);
    while i < resolved.len()
        invariant
            ops.desktop() == old(ops).desktop(),
            i <= resolved@.len(),
            rv == resolved_view(resolved@),
            entries_of(entries@, before + rv.take(i as int)),
            ops.history() == start + capture_calls(entries@),
        decreases resolved@.len() - i,
    {
        let ghost es = entries@;
        let ghost h = ops.history();
        assert(rv[i as int] == resolved@[i as int]@);
        match capture_journal_entry(ops, &resolved[i]) {
            Ok(e) => {
                entries.push(e);
                proof {
                    assert(entries@.drop_last() =~= es);
                    assert(ops.history() =~= start + capture_calls(entries@));
                    let now = before + rv.take(i + 1);
                    assert forall|j: int| 0 <= j < now.len() implies (
                    #[trigger] entries@[j]).managed_window_id == now[j].managed.id
                        && entries@[j].hwnd == now[j].hwnd && entries@[j].process_id
                        == now[j].process_id by {
                        if j < es.len() {
                            assert(entries@[j] == es[j]);
                            assert(now[j] == (before + rv.take(i as int))[j]);
                        }
                    }
                }
            },
            Err(e) => {
                proof {
                    let all = before + rv;
                    let k = before.len() + i as int;
                    let last = choose|last: Seq<WindowCall>| #[trigger]
                        is_failed_capture(last, resolved@[i as int].hwnd) && ops.history() == h
                            + last;
                    assert(all.take(k) =~= before + rv.take(i as int));
                    assert(all[k] == rv[i as int]);
                    assert(stopped_at(capture_calls(es) + last, all, es, last, k));
                    assert(ops.history() =~= start + (capture_calls(es) + last));
                }
                return Err(e);
            },
        }
        i += 1;
    }
    assert(rv.take(rv.len() as int) =~= rv);
    Ok(())
}

// ---------------------------------------------------------------------------
// Taking a switch back
// ---------------------------------------------------------------------------

/// What is done to bring one window back, given whether it was alive and could be moved.
pub open spec fn undo_calls(e: JournalWindowEntry, alive: bool, moved: bool) -> Seq<WindowCall> {
    let asked = seq![WindowCall::Alive { hwnd: e.hwnd, alive }];
    if !alive {
        asked
    } else {
        let placed = asked + seq![
            WindowCall::Restore { hwnd: e.hwnd },
            WindowCall::BatchMove { moves: seq![(e.hwnd, e.before.rect)], done: moved },
        ];
        if !moved {
            placed
        } else {
            match e.before.show_state {
                SavedShowState::Maximized => placed.push(WindowCall::Maximize { hwnd: e.hwnd }),
                SavedShowState::Minimized => placed.push(WindowCall::Minimize { hwnd: e.hwnd }),
                SavedShowState::Normal => placed,
            }
        }
    }
}

/// What is done to bring all windows back, given how each fared.
pub open spec fn undo_all(entries: Seq<JournalWindowEntry>, fates: Seq<(bool, bool)>) -> Seq<
    WindowCall,
>
    decreases entries.len(),
{
    if entries.len() == 0 {
        Seq::empty()
    } else {
        undo_all(entries.drop_last(), fates.drop_last()) + undo_calls(
            entries.last(),
            fates.last().0,
            fates.last().1,
        )
    }
}

/// The windows that could not be brought back.
pub open spec fn lost_handles(entries: Seq<JournalWindowEntry>, fates: Seq<(bool, bool)>) -> Seq<
    isize,
>
    decreases entries.len(),
{
    if entries.len() == 0 {
        Seq::empty()
    } else {
        let before = lost_handles(entries.drop_last(), fates.drop_last());
        if fates.last().0 && fates.last().1 {
            before
        } else {
            before.push(entries.last().hwnd)
        }
    }
}

/// Brings one window back to where it was. Returns whether it was alive and could be moved.
pub(crate) fn undo_one<W: WindowOps>(ops: &mut Recorder<W>, e: JournalWindowEntry) -> (r: (bool, bool))
    ensures
        final(ops).desktop() == old(ops).desktop(),
        final(ops).history() == old(ops).history() + undo_calls(e, r.0, r.1),
        !r.0 ==> !r.1,
{
    let ghost start = ops.history();
    let alive = ops.is_window_alive(e.hwnd);
    if !alive {
        assert(ops.history() =~= start + undo_calls(e, false, false));
        return (false, false);
    }
    ops.restore(e.hwnd);
    let one: Vec<(isize, PixelRect)> = vec![(e.hwnd, e.before.rect)];
    assert(one@ =~= seq![(e.hwnd, e.before.rect)]);
    let moved = ops.batch_move(one.as_slice()).is_ok();
    if moved {
        match e.before.show_state {
            SavedShowState::Maximized => ops.maximize(e.hwnd),
            SavedShowState::Minimized => ops.minimize(e.hwnd),
            SavedShowState::Normal => {},
        }
    }
    assert(ops.history() =~= start + undo_calls(e, true, moved));
    (true, moved)
}

/// Brings every window of the journal back to where it was, as far as it goes. Returns the
/// handles of those that could not be brought back.
fn restore_entries<W: WindowOps>(ops: &mut Recorder<W>, entries: &Vec<JournalWindowEntry>) -> (r: Vec<isize>)
    ensures
        final(ops).desktop() == old(ops).desktop(),
        exists|fates: Seq<(bool, bool)>|
            {
                &&& fates.len() == entries@.len()
                &&& final(ops).history() == old(ops).history() + #[trigger] undo_all(
                    entries@,
                    fates,
                )
                &&& r@ == lost_handles(entries@, fates)
            },
{
    let ghost start = ops.history();
    let ghost mut fates = Seq::<(bool, bool)>::empty();
    let mut lost: Vec<isize> = Vec::new();
    let mut i: usize = 0;
    proof {
        assert(start + undo_all(entries@.take(0), fates) =~= start);
        assert(lost@ =~= lost_handles(entries@.take(0), fates));
    }
    while i < entries.len()
        invariant
            ops.desktop() == old(ops).desktop(),
            i <= entries@.len(),
            fates.len() == i,
            ops.history() == start + undo_all(entries@.take(i as int), fates),
            lost@ == lost_handles(entries@.take(i as int), fates),
        decreases entries@.len() - i,
    {
        let e = entries[i];
        let ghost before = ops.history();
        let ghost old_fates = fates;
        let (alive, moved) = undo_one(ops, e);
        if !(alive && moved) {
            lost.push(e.hwnd);
        }
        proof {
            fates = old_fates.push((alive, moved));
            assert(fates.drop_last() =~= old_fates);
            assert(entries@.take(i + 1).drop_last() =~= entries@.take(i as int));
            assert(entries@.take(i + 1).last() == e);
            assert(ops.history() =~= before + undo_calls(e, alive, moved));
            assert(ops.history() =~= start + undo_all(entries@.take(i + 1), fates));
        }
        i += 1;
    }
    assert(entries@.take(entries@.len() as int) =~= entries@);
    lost
}

/// What a failed switch is reported as.
pub open spec fn is_rollback_error(
    error: SwitchError,
    reason: Seq<char>,
    lost: Seq<isize>,
) -> bool {
    if lost.len() == 0 {
        error matches SwitchError::RolledBack { reason: why, unrecoverable_hwnds } && why@ == reason
            && unrecoverable_hwnds@ == lost
    } else {
        error matches SwitchError::RollbackFailed { reason: why, unrecoverable_hwnds } && why@
            == reason && unrecoverable_hwnds@ == lost
    }
}

// ---------------------------------------------------------------------------
// The switch
// ---------------------------------------------------------------------------

/// What the first half of a switch comes to.
pub enum SwitchStep<'a> {
    /// The set was current already, and was only focused.
    AlreadyCurrent(SwitchOutcome),
    /// The journal is to be written down before the windows are moved.
    Journaled(PendingSwitch<'a>),
}

/// A switch that is decided and captured, but not carried out yet.
pub struct PendingSwitch<'a> {
    pub journal: SwitchJournal,
    pub runtime: RuntimeState,
    pub target: &'a Workset,
    pub parking: Vec<ParkingSet<'a>>,
    pub target_windows: Vec<ResolvedWindow<'a>>,
    pub evictees: Vec<ResolvedWindow<'a>>,
}

/// What the second half of a switch comes to.
pub enum SwitchEnd {
    /// The state is to be written down, then the journal cleared.
    Completed { outcome: SwitchOutcome, runtime: RuntimeState },
    /// The journal is to be written down, and cleared where every window was brought back.
    Failed { error: SwitchError, journal: SwitchJournal },
}

/// The set that is current, if it is still registered.
pub open spec fn current_set(req: RequestView, runtime: RuntimeState) -> Option<Workset> {
    match runtime.current_workset_id {
        Some(id) => workset_service::set_with_id(req.worksets, id),
        None => None,
    }
}

/// What all registered windows come to, with the target set preferred.
pub open spec fn switch_decisions<M: WindowMatching>(
    matching: M,
    req: RequestView,
    runtime: RuntimeState,
) -> Map<Uuid, MatchView> {
    workset_service::all_decisions(
        matching,
        req.worksets,
        req.live_windows,
        runtime.window_bindings@,
        Some(req.target),
    )
}

/// The bindings once what was found is remembered.
pub open spec fn learned(
    bindings: Map<Uuid, isize>,
    decisions: Map<Uuid, MatchView>,
    now: Map<Uuid, isize>,
) -> bool {
    forall|id: Uuid| #[trigger]
        now.contains_key(id) == (bindings.contains_key(id) || workset_service::handle_of(
            decisions,
            id,
        ) is Some) && (now.contains_key(id) ==> now[id] == match workset_service::handle_of(
            decisions,
            id,
        ) {
            Some(hwnd) => hwnd,
            None => bindings[id],
        })
}

/// All windows that a switch touches, in the order in which they are captured.
pub open spec fn touched(
    sets: Seq<ParkedSet>,
    target_windows: Seq<Resolved>,
    evictees: Seq<Resolved>,
) -> Seq<Resolved> {
    windows_of(sets) + target_windows + evictees
}

pub open spec fn windows_of(sets: Seq<ParkedSet>) -> Seq<Resolved>
    decreases sets.len(),
{
    if sets.len() == 0 {
        Seq::empty()
    } else {
        windows_of(sets.drop_last()) + sets.last().windows
    }
}

/// All windows that a switch touches, as the first half of it finds them.
pub open spec fn touched_by<M: WindowMatching>(
    matching: M,
    req: RequestView,
    runtime: RuntimeState,
) -> Seq<Resolved> {
    let decisions = switch_decisions(matching, req, runtime);
    let current = current_set(req, runtime);
    let target_windows = match workset_service::set_with_id(req.worksets, req.target) {
        Some(t) => resolved_of(t.windows@, decisions, req.live_windows),
        None => Seq::empty(),
    };
    let current_windows = match current {
        Some(c) => resolved_of(c.windows@, decisions, req.live_windows),
        None => Seq::empty(),
    };
    let incoming = handle_set(current_windows).union(handle_set(target_windows));
    touched(
        sets_to_park(req.worksets, req.target, decisions, req.live_windows),
        target_windows,
        evictees_of(req, decisions, current, incoming),
    )
}

proof fn lemma_windows_of_prefix(sets: Seq<ParkedSet>, i: int)
    requires
        0 <= i <= sets.len(),
    ensures
        windows_of(sets.take(i)).is_prefix_of(windows_of(sets)),
    decreases sets.len(),
{
    if i < sets.len() {
        assert(sets.drop_last().take(i) =~= sets.take(i));
        lemma_windows_of_prefix(sets.drop_last(), i);
        let a = windows_of(sets.take(i));
        let b = windows_of(sets.drop_last());
        assert(a == b.subrange(0, a.len() as int));
        assert(windows_of(sets).subrange(0, a.len() as int) =~= a);
    } else {
        assert(sets.take(i) =~= sets);
        assert(windows_of(sets).subrange(0, windows_of(sets).len() as int) =~= windows_of(sets));
    }
}

/// Where capturing stopped among some windows, it stopped at the same one among more.
proof fn lemma_stopped_among_more(
    before: Seq<WindowCall>,
    after: Seq<WindowCall>,
    ws: Seq<Resolved>,
    more: Seq<Resolved>,
    hwnd: isize,
)
    requires
        capture_stopped(before, after, ws, hwnd),
        ws.is_prefix_of(more),
    ensures
        capture_stopped(before, after, more, hwnd),
{
    let (es, last, k) = choose|es: Seq<JournalWindowEntry>, last: Seq<WindowCall>, k: int|
        {
            &&& #[trigger] stopped_at(capture_calls(es) + last, ws, es, last, k)
            &&& hwnd == ws[k].hwnd
            &&& after == before + (capture_calls(es) + last)
        };
    assert(ws == more.subrange(0, ws.len() as int));
    assert(ws.take(k) =~= more.take(k));
    assert(stopped_at(capture_calls(es) + last, more, es, last, k));
}

/// Everything that the first half of a switch settles.
pub open spec fn is_pending<'a, M: WindowMatching>(
    p: PendingSwitch<'a>,
    matching: M,
    req: RequestView,
    runtime: RuntimeState,
    now: Seq<char>,
) -> bool {
    let decisions = switch_decisions(matching, req, runtime);
    let current = current_set(req, runtime);
    let target_windows = resolved_of(p.target.windows@, decisions, req.live_windows);
    let current_windows = match current {
        Some(c) => resolved_of(c.windows@, decisions, req.live_windows),
        None => Seq::empty(),
    };
    let incoming = handle_set(current_windows).union(handle_set(target_windows));
    &&& workset_service::set_with_id(req.worksets, req.target) == Some(*p.target)
    &&& parking_view(p.parking@) == sets_to_park(
        req.worksets,
        req.target,
        decisions,
        req.live_windows,
    )
    &&& resolved_view(p.target_windows@) == target_windows
    &&& resolved_view(p.evictees@) == evictees_of(req, decisions, current, incoming)
    &&& learned(runtime.window_bindings@, decisions, p.runtime.window_bindings@)
    &&& p.runtime.current_workset_id == runtime.current_workset_id
    &&& p.runtime.auto_slot_assignments == runtime.auto_slot_assignments
    &&& p.runtime.agent_runs == runtime.agent_runs
    &&& p.runtime.last_seen_monitor_fingerprint == runtime.last_seen_monitor_fingerprint
    &&& p.runtime.last_clean_shutdown == runtime.last_clean_shutdown
    &&& p.runtime.window_binding_session == runtime.window_binding_session
    &&& p.journal.schema_version == JOURNAL_SCHEMA_VERSION
    &&& p.journal.status == JournalStatus::Started
    &&& p.journal.from_workset_id == runtime.current_workset_id
    &&& p.journal.to_workset_id == req.target
    &&& p.journal.created_at@ == now
    &&& entries_of(
        p.journal.windows@,
        touched(
            parking_view(p.parking@),
            resolved_view(p.target_windows@),
            resolved_view(p.evictees@),
        ),
    )
}

/// The target comes out of the full screen that it was parked in.
pub open spec fn leaves_fullscreen(req: RequestView, target: Workset) -> bool {
    match target.parking_policy {
        ParkingPolicy::SubScreen { sub_screen_id } => fills_area(req, target, sub_screen_id),
        _ => target.fullscreen_when_parked,
    }
}

/// Brings one window of the target back to its place on the main screen.
pub open spec fn bring_back(hwnd: isize, outcome: RestoreOutcome, leaves: bool) -> WindowCall {
    let maximized = outcome.show_state == SavedShowState::Maximized;
    if leaves {
        WindowCall::ExitFullscreen { hwnd, rect: outcome.rect, maximized, fill: false }
    } else {
        WindowCall::SetPlacement { hwnd, rect: outcome.rect, maximized, fill: false }
    }
}

pub open spec fn bring_back_calls(req: RequestView, ws: Seq<Resolved>, leaves: bool) -> Seq<
    WindowCall,
> {
    Seq::new(ws.len(), |i: int| bring_back(ws[i].hwnd, main_place(req, ws[i])->0, leaves))
}

pub open spec fn z_keys(ws: Seq<Resolved>) -> Seq<i32> {
    Seq::new(ws.len(), |i: int| ws[i].managed.z_order)
}

/// The windows from the lowest to the highest.
pub open spec fn by_height(ws: Seq<Resolved>) -> Seq<usize> {
    choose|o: Seq<usize>| order::is_stable_order(o, z_keys(ws))
}

/// Puts each window above the one below it.
pub open spec fn stack_calls(ws: Seq<Resolved>, o: Seq<usize>) -> Seq<WindowCall> {
    Seq::new(
        if o.len() == 0 {
            0
        } else {
            (o.len() - 1) as nat
        },
        |i: int|
            WindowCall::ZOrderAfter {
                hwnd: ws[o[i + 1] as int].hwnd,
                after: Some(ws[o[i] as int].hwnd),
            },
    )
}

/// The highest window.
pub open spec fn top_handle(ws: Seq<Resolved>, o: Seq<usize>) -> Option<isize> {
    if o.len() == 0 {
        None
    } else {
        Some(ws[o.last() as int].hwnd)
    }
}

pub open spec fn focus_calls(focus: Option<isize>) -> Seq<WindowCall> {
    match focus {
        Some(hwnd) => seq![WindowCall::Foreground { hwnd }],
        None => Seq::empty(),
    }
}

pub open spec fn key_calls(keys: Seq<isize>, focus: Option<isize>) -> Seq<WindowCall> {
    Seq::new(keys.len(), |i: int| WindowCall::FullscreenKeys { hwnd: keys[i], refocus: focus })
}

/// Everything that a switch does once all sets are parked.
pub open spec fn arrival_calls(
    req: RequestView,
    target: Workset,
    ws: Seq<Resolved>,
    keys: Seq<isize>,
) -> Seq<WindowCall> {
    let o = by_height(ws);
    let focus = top_handle(ws, o);
    bring_back_calls(req, ws, leaves_fullscreen(req, target)) + stack_calls(ws, o) + focus_calls(
        focus,
    ) + key_calls(keys, focus)
}

/// What parking all sets comes to.
pub open spec fn departure<'a>(req: RequestView, p: PendingSwitch<'a>) -> Parked {
    let sets = parking_view(p.parking@);
    parked_upto(req, set_ids(sets), decoded(p.runtime.auto_slot_assignments@), sets, sets.len())
}

/// Why the second half of a switch fails, if it does.
pub open spec fn failure_of<'a>(req: RequestView, p: PendingSwitch<'a>) -> Option<Seq<char>> {
    if !departure(req, p).ok {
        Some(no_source_bounds())
    } else if !all_have_place(req, resolved_view(p.target_windows@)) {
        Some("no live main monitor"@)
    } else {
        None
    }
}

/// What is done before it is known whether the switch goes through.
pub open spec fn departure_calls<'a>(req: RequestView, p: PendingSwitch<'a>) -> Seq<WindowCall> {
    eviction_calls(req, resolved_view(p.evictees@)) + departure(req, p).calls
}

/// Moves windows on behalf of the user, one switch at a time.
pub struct SwitchCoordinator<W: WindowOps> {
    pub window_ops: Recorder<W>,
    pub data_dir: String,
    /// A switch is under way.
    pub switching: bool,
}

fn learn_bindings(
    bindings: &mut HashMap<Uuid, isize>,
    decisions: &HashMap<Uuid, MatchDecision>,
)
    ensures
        learned(
            old(bindings)@,
            workset_service::decisions_view(decisions@),
            final(bindings)@,
        ),
{
    let ghost dv = workset_service::decisions_view(decisions@);
    let ghost before = bindings@;
    let fresh = workset_service::bindings_from_decisions(decisions);
    for kv in it: fresh.iter()
        invariant
            dv == workset_service::decisions_view(decisions@),
            forall|id: Uuid| #[trigger]
                fresh@.contains_key(id) <==> workset_service::handle_of(dv, id) is Some,
            forall|id: Uuid| #[trigger]
                fresh@.contains_key(id) ==> workset_service::handle_of(dv, id) == Some(fresh@[id]),
            forall|k: Uuid| #[trigger] fresh@.contains_key(k) ==> it.seq().contains((&k, &fresh@[k])),
            forall|i: int|
                #![trigger it.seq()[i]]
                0 <= i < it.seq().len() ==> fresh@.contains_key(*it.seq()[i].0)
                    && fresh@[*it.seq()[i].0] == *it.seq()[i].1,
            forall|i: int|
                #![trigger it.seq()[i]]
                0 <= i < it.index() ==> bindings@.contains_key(*it.seq()[i].0)
                    && bindings@[*it.seq()[i].0] == *it.seq()[i].1,
            forall|id: Uuid| #[trigger]
                bindings@.contains_key(id) ==> (fresh@.contains_key(id) && bindings@[id]
                    == fresh@[id]) || (before.contains_key(id) && bindings@[id] == before[id]),
            forall|id: Uuid|
                before.contains_key(id) ==> #[trigger] bindings@.contains_key(id),
    {
        bindings.insert(*kv.0, *kv.1);
    }
    proof {
        assert forall|id: Uuid| #[trigger]
            bindings@.contains_key(id) == (before.contains_key(id) || workset_service::handle_of(
                dv,
                id,
            ) is Some) && (bindings@.contains_key(id) ==> bindings@[id]
                == match workset_service::handle_of(dv, id) {
                Some(hwnd) => hwnd,
                None => before[id],
            }) by {
            assert(fresh@.contains_key(id) <==> workset_service::handle_of(dv, id) is Some);
        }
    }
}

impl<W: WindowOps> SwitchCoordinator<W> {
    pub fn new(window_ops: W, data_dir: String) -> (r: Self)
        ensures
            r.window_ops.desktop() == window_ops,
            r.window_ops.history() == Seq::<WindowCall>::empty(),
            r.data_dir == data_dir,
            !r.switching,
    {
        SwitchCoordinator { window_ops: Recorder::new(window_ops), data_dir, switching: false }
    }

    /// The first half of a switch to the set that `request` names: finds all windows again,
    /// decides which of them have to make room, and asks how each is shown now. Nothing is moved
    /// yet, except that a set which is current already is focused. While a switch is under way
    /// no other begins.
    pub fn switch_to<'a, M: WindowMatching>(
        &mut self,
        matching: &M,
        request: &SwitchRequest<'a>,
        runtime: RuntimeState,
        now: String,
    ) -> (r: Result<SwitchStep<'a>, SwitchError>)
        requires
            parking_allocator::monitors_fit(request.live_monitors@),
        ensures
            final(self).window_ops.desktop() == old(self).window_ops.desktop(),
            final(self).data_dir == old(self).data_dir,
            old(self).switching ==> {
                &&& r matches Err(e)
                &&& e is AlreadyInProgress
                &&& *final(self) == *old(self)
            },
            !old(self).switching && workset_service::set_with_id(
                request.worksets@,
                request.target_workset_id,
            ) is None ==> {
                &&& r matches Err(e)
                &&& e == SwitchError::TargetNotFound(request.target_workset_id)
                &&& !final(self).switching
                &&& final(self).window_ops.history() == old(self).window_ops.history()
            },
            !old(self).switching && (workset_service::set_with_id(
                request.worksets@,
                request.target_workset_id,
            ) matches Some(target) && runtime.current_workset_id == Some(target.id)) ==> {
                let target = workset_service::set_with_id(
                    request.worksets@,
                    request.target_workset_id,
                )->0;
                let focus = front_handle(
                    resolved_of(
                        target.windows@,
                        switch_decisions(*matching, request@, runtime),
                        request.live_windows@,
                    ),
                );
                &&& r matches Ok(step)
                &&& step matches SwitchStep::AlreadyCurrent(outcome)
                &&& outcome.new_current_workset_id == request.target_workset_id
                &&& outcome.focused_hwnd == focus
                &&& !final(self).switching
                &&& final(self).window_ops.history() == old(self).window_ops.history()
                    + focus_calls(focus)
            },
            !old(self).switching && (workset_service::set_with_id(
                request.worksets@,
                request.target_workset_id,
            ) matches Some(target) && runtime.current_workset_id != Some(target.id)) ==> match r {
                Ok(step) => {
                    &&& step matches SwitchStep::Journaled(p)
                    &&& is_pending(p, *matching, request@, runtime, now@)
                    &&& final(self).switching
                    &&& final(self).window_ops.history() == old(self).window_ops.history()
                        + capture_calls(p.journal.windows@)
                },
                Err(e) => {
                    &&& e matches SwitchError::CaptureFailed { hwnd }
                    &&& !final(self).switching
                    &&& capture_stopped(
                        old(self).window_ops.history(),
                        final(self).window_ops.history(),
                        touched_by(*matching, request@, runtime),
                        hwnd,
                    )
                },
            },
    {
        if self.switching {
            return Err(SwitchError::AlreadyInProgress);
        }
        let ghost start = self.window_ops.history();
        let ghost req = request@;
        let target = match workset_service::find_set(request.worksets, request.target_workset_id) {
            Some(w) => w,
            None => {
                return Err(SwitchError::TargetNotFound(request.target_workset_id));
            },
        };
        let decisions = workset_service::resolve_all_matches_with_bindings(
            matching,
            request.worksets,
            request.live_windows,
            &runtime.window_bindings,
            Some(request.target_workset_id),
        );
        let ghost dv = workset_service::decisions_view(decisions@);
        let target_windows = resolved_windows(target, &decisions, request.live_windows);
        let is_current = match runtime.current_workset_id {
            Some(id) => id == target.id,
            None => false,
        };
        if is_current {
            let focus = frontmost(&target_windows);
            if let Some(hwnd) = focus {
                self.window_ops.set_foreground(hwnd);
            }
            assert(self.window_ops.history() =~= start + focus_calls(focus));
            return Ok(
                SwitchStep::AlreadyCurrent(
                    SwitchOutcome {
                        transaction_id: ids::random_uuid(),
                        new_current_workset_id: target.id,
                        focused_hwnd: focus,
                    },
                ),
            );
        }
        let mut state = runtime;
        learn_bindings(&mut state.window_bindings, &decisions);
        let current = match state.current_workset_id {
            Some(id) => workset_service::find_set(request.worksets, id),
            None => None,
        };
        let mut incoming: HashSet<isize> = HashSet::new();
        if let Some(c) = current {
            let current_windows = resolved_windows(c, &decisions, request.live_windows);
            collect_handles(&current_windows, &mut incoming);
        }
        collect_handles(&target_windows, &mut incoming);
        let parking = collect_sets_to_park(request, &decisions);
        let evictees = resolve_sub_evictees(request, &decisions, current, &incoming);
        proof {
            let current_windows = match current {
                Some(c) => resolved_of(c.windows@, dv, req.live_windows),
                None => Seq::<Resolved>::empty(),
            };
            assert(incoming@ =~= handle_set(current_windows).union(
                handle_set(resolved_view(target_windows@)),
            ));
        }
        let transaction_id: u128 = ids::random_uuid();
        let mut entries: Vec<JournalWindowEntry> = Vec::new();
        let ghost pv = parking_view(parking@);
        let ghost tv = resolved_view(target_windows@);
        let ghost ev = resolved_view(evictees@);
        let ghost all = touched(pv, tv, ev);
        assert(all == touched_by(*matching, req, runtime));
        let mut i: usize = 0;
        proof {
            assert(windows_of(pv.take(0)) =~= Seq::<Resolved>::empty());
            assert(self.window_ops.history() =~= start + capture_calls(entries@));
        }
        while i < parking.len()
            invariant
                self.window_ops.desktop() == old(self).window_ops.desktop(),
                i <= parking@.len(),
                pv == parking_view(parking@),
                !self.switching,
                self.data_dir == old(self).data_dir,
                entries_of(entries@, windows_of(pv.take(i as int))),
                self.window_ops.history() == start + capture_calls(entries@),
                start == old(self).window_ops.history(),
                !old(self).switching,
                req == request@,
                all == touched(pv, tv, ev),
                all == touched_by(*matching, request@, runtime),
                runtime.current_workset_id != Some(target.id),
                workset_service::set_with_id(request.worksets@, request.target_workset_id) == Some(
                    *target,
                ),
            decreases parking@.len() - i,
        {
            let ghost so_far = windows_of(pv.take(i as int));
            proof {
                assert(pv.take(i + 1).drop_last() =~= pv.take(i as int));
                assert(pv.take(i + 1).last() == parking@[i as int]@);
            }
            match capture_all(
                &mut self.window_ops,
                &parking[i].windows,
                &mut entries,
                Ghost(start),
                Ghost(so_far),
            ) {
                Ok(()) => {},
                Err(e) => {
                    proof {
                        lemma_windows_of_prefix(pv, i + 1);
                        let ws = windows_of(pv.take(i + 1));
                        assert(ws.is_prefix_of(all)) by {
                            assert(all.subrange(0, ws.len() as int) =~= ws);
                        }
                        lemma_stopped_among_more(
                            start,
                            self.window_ops.history(),
                            ws,
                            all,
                            e->hwnd,
                        );
                    }
                    return Err(e);
                },
            }
            i += 1;
        }
        assert(pv.take(pv.len() as int) =~= pv);
        match capture_all(
            &mut self.window_ops,
            &target_windows,
            &mut entries,
            Ghost(start),
            Ghost(windows_of(pv)),
        ) {
            Ok(()) => {},
            Err(e) => {
                proof {
                    let ws = windows_of(pv) + tv;
                    assert(all.subrange(0, ws.len() as int) =~= ws);
                    lemma_stopped_among_more(start, self.window_ops.history(), ws, all, e->hwnd);
                }
                return Err(e);
            },
        }
        match capture_all(
            &mut self.window_ops,
            &evictees,
            &mut entries,
            Ghost(start),
            Ghost(windows_of(pv) + tv),
        ) {
            Ok(()) => {},
            Err(e) => {
                return Err(e);
            },
        }
        self.switching = true;
        let journal = SwitchJournal {
            schema_version: JOURNAL_SCHEMA_VERSION,
            transaction_id,
            status: JournalStatus::Started,
            from_workset_id: state.current_workset_id,
            to_workset_id: target.id,
            created_at: now,
            windows: entries,
        };
        Ok(
            SwitchStep::Journaled(
                PendingSwitch {
                    journal,
                    runtime: state,
                    target,
                    parking,
                    target_windows,
                    evictees,
                },
            ),
        )
    }

    /// Gives up a switch whose journal could not be written down; no window was moved.
    pub fn abandon_switch(&mut self)
        ensures
            !final(self).switching,
            final(self).window_ops == old(self).window_ops,
            final(self).data_dir == old(self).data_dir,
    {
        self.switching = false;
    }

    /// The second half of a switch: parks all other sets, brings the target back to the main
    /// screen, stacks and focuses it. Where there is no main screen to speak of, everything is
    /// taken back.
    pub fn finish_switch<'a>(
        &mut self,
        request: &SwitchRequest<'a>,
        pending: PendingSwitch<'a>,
    ) -> (r: SwitchEnd)
        requires
            parking_allocator::monitors_fit(request.live_monitors@),
        ensures
            final(self).window_ops.desktop() == old(self).window_ops.desktop(),
            !final(self).switching,
            final(self).data_dir == old(self).data_dir,
            failure_of(request@, pending) is None <==> r is Completed,
            match r {
                SwitchEnd::Completed { outcome, runtime } => {
                    let ws = resolved_view(pending.target_windows@);
                    let d = departure(request@, pending);
                    &&& final(self).window_ops.history() == old(self).window_ops.history()
                        + departure_calls(request@, pending) + arrival_calls(
                        request@,
                        *pending.target,
                        ws,
                        d.keys,
                    )
                    &&& outcome.transaction_id == pending.journal.transaction_id
                    &&& outcome.new_current_workset_id == pending.target.id
                    &&& outcome.focused_hwnd == top_handle(ws, by_height(ws))
                    &&& runtime.current_workset_id == Some(pending.target.id)
                    &&& decoded(runtime.auto_slot_assignments@) == d.slots
                    &&& d.dealt ==> well_written(runtime.auto_slot_assignments@, d.slots)
                    &&& !d.dealt ==> runtime.auto_slot_assignments@
                        == pending.runtime.auto_slot_assignments@
                    &&& runtime.window_bindings == pending.runtime.window_bindings
                    &&& runtime.agent_runs == pending.runtime.agent_runs
                    &&& runtime.last_seen_monitor_fingerprint
                        == pending.runtime.last_seen_monitor_fingerprint
                    &&& runtime.last_clean_shutdown == pending.runtime.last_clean_shutdown
                    &&& runtime.window_binding_session == pending.runtime.window_binding_session
                },
                SwitchEnd::Failed { error, journal } => {
                    &&& journal.status == JournalStatus::RolledBack
                    &&& journal.schema_version == pending.journal.schema_version
                    &&& journal.transaction_id == pending.journal.transaction_id
                    &&& journal.from_workset_id == pending.journal.from_workset_id
                    &&& journal.to_workset_id == pending.journal.to_workset_id
                    &&& journal.created_at == pending.journal.created_at
                    &&& journal.windows == pending.journal.windows
                    &&& exists|fates: Seq<(bool, bool)>|
                        {
                            &&& fates.len() == journal.windows@.len()
                            &&& final(self).window_ops.history() == old(self).window_ops.history()
                                + departure_calls(request@, pending) + #[trigger] undo_all(
                                journal.windows@,
                                fates,
                            )
                            &&& is_rollback_error(
                                error,
                                failure_of(request@, pending)->0,
                                lost_handles(journal.windows@, fates),
                            )
                        }
                },
            },
    {
        let ghost start = self.window_ops.history();
        let ghost req = request@;
        self.switching = false;
        park_evictees(&mut self.window_ops, &pending.evictees, request);
        let mut slots = pending.runtime.auto_slot_assignments;
        let parked = park_all(&mut self.window_ops, request, &pending.parking, &mut slots);
        assert(self.window_ops.history() =~= start + departure_calls(req, pending));
        let keys = match parked {
            Ok(keys) => keys,
            Err(reason) => {
                return self.rollback(pending.journal, reason);
            },
        };
        let outcomes = match find_places(request, &pending.target_windows) {
            Some(outcomes) => outcomes,
            None => {
                let reason = text::owned("no live main monitor");
                return self.rollback(pending.journal, reason);
            },
        };
        let leaves = comes_out_of_fullscreen(request, pending.target);
        let focus = arrive(
            &mut self.window_ops,
            &pending.target_windows,
            &outcomes,
            leaves,
            &keys,
            Ghost(req),
            Ghost(*pending.target),
        );
        let runtime = RuntimeState {
            current_workset_id: Some(pending.target.id),
            window_bindings: pending.runtime.window_bindings,
            auto_slot_assignments: slots,
            agent_runs: pending.runtime.agent_runs,
            last_seen_monitor_fingerprint: pending.runtime.last_seen_monitor_fingerprint,
            last_clean_shutdown: pending.runtime.last_clean_shutdown,
            window_binding_session: pending.runtime.window_binding_session,
        };
        SwitchEnd::Completed {
            outcome: SwitchOutcome {
                transaction_id: pending.journal.transaction_id,
                new_current_workset_id: pending.target.id,
                focused_hwnd: focus,
            },
            runtime,
        }
    }

    /// Brings every window of the journal back to where it was, as far as it goes.
    fn rollback(&mut self, journal: SwitchJournal, reason: String) -> (r: SwitchEnd)
        ensures
            final(self).window_ops.desktop() == old(self).window_ops.desktop(),
            final(self).switching == old(self).switching,
            final(self).data_dir == old(self).data_dir,
            ({
                &&& r matches SwitchEnd::Failed { error, journal: j }
                &&& j.status == JournalStatus::RolledBack
                &&& j.schema_version == journal.schema_version
                &&& j.transaction_id == journal.transaction_id
                &&& j.from_workset_id == journal.from_workset_id
                &&& j.to_workset_id == journal.to_workset_id
                &&& j.created_at == journal.created_at
                &&& j.windows == journal.windows
                &&& exists|fates: Seq<(bool, bool)>|
                    {
                        &&& fates.len() == journal.windows@.len()
                        &&& final(self).window_ops.history() == old(self).window_ops.history()
                            + #[trigger] undo_all(journal.windows@, fates)
                        &&& is_rollback_error(
                            error,
                            reason@,
                            lost_handles(journal.windows@, fates),
                        )
                    }
            }),
    {
        let lost = restore_entries(&mut self.window_ops, &journal.windows);
        let mut journal = journal;
        journal.status = JournalStatus::RolledBack;
        let error = if lost.len() == 0 {
            SwitchError::RolledBack { reason, unrecoverable_hwnds: lost }
        } else {
            SwitchError::RollbackFailed { reason, unrecoverable_hwnds: lost }
        };
        SwitchEnd::Failed { error, journal }
    }

    /// Brings all windows back onto the main screen, after which no set is current. This is
    /// possible at any time, also while a switch is under way.
    pub fn recover_all_windows<M: WindowMatching>(
        &mut self,
        matching: &M,
        worksets: &[Workset],
        live_monitors: &[MonitorInfo],
        main_monitor_ids: &[String],
        live_windows: &[TopLevelWindow],
        runtime: RuntimeState,
    ) -> (r: (RecoveryReport, RuntimeState))
        requires
            parking_allocator::monitors_fit(live_monitors@),
            workset_service::all_windows(worksets@).len() <= i32::MAX,
        ensures
            final(self).window_ops.desktop() == old(self).window_ops.desktop(),
            final(self).switching == old(self).switching,
            final(self).data_dir == old(self).data_dir,
            r.1 == (RuntimeState { current_workset_id: None, ..runtime }),
            ({
                let decisions = workset_service::all_decisions(
                    *matching,
                    worksets@,
                    live_windows@,
                    Map::empty(),
                    None,
                );
                recovery_service::recovers(
                    old(self).window_ops.history(),
                    final(self).window_ops.history(),
                    r.0,
                    worksets@,
                    decisions,
                    monitor_resolution::first_live(live_monitors@, main_monitor_ids@),
                )
            }),
    {
        let report = recovery_service::recover_all_windows(
            &mut self.window_ops,
            matching,
            worksets,
            live_windows,
            live_monitors,
            main_monitor_ids,
        );
        let mut runtime = runtime;
        runtime.current_workset_id = None;
        (report, runtime)
    }
}

/// Parks all sets, one after the other, until one cannot be parked. Returns the windows that
/// are to be sent the full-screen keys.
fn park_all<W: WindowOps>(
    ops: &mut Recorder<W>,
    request: &SwitchRequest,
    parking: &Vec<ParkingSet>,
    slots: &mut Vec<(String, String)>,
) -> (r: Result<Vec<isize>, String>)
    requires
        parking_allocator::monitors_fit(request.live_monitors@),
    ensures
        final(ops).desktop() == old(ops).desktop(),
        ({
            let sets = parking_view(parking@);
            let p = parked_upto(
                request@,
                set_ids(sets),
                decoded(old(slots)@),
                sets,
                sets.len(),
            );
            &&& final(ops).history() == old(ops).history() + p.calls
            &&& match r {
                Ok(keys) => {
                    &&& p.ok
                    &&& keys@ == p.keys
                    &&& decoded(final(slots)@) == p.slots
                    &&& p.dealt ==> well_written(final(slots)@, p.slots)
                    &&& !p.dealt ==> final(slots)@ == old(slots)@
                },
                Err(reason) => !p.ok && reason@ == no_source_bounds(),
            }
        }),
{
    let ghost start = ops.history();
    let ghost req = request@;
    let ghost sets = parking_view(parking@);
    let ghost before = slots@;
    let ghost slots0 = decoded(before);
    let with_windows = collect_set_ids(parking);
    let ghost with = set_ids(sets);
    let mut keys: Vec<isize> = Vec::new();
    let mut i: usize = 0;
    proof {
        let p = parked_upto(req, with, slots0, sets, 0);
        assert(start + p.calls =~= start);
        assert(keys@ =~= p.keys);
    }
    while i < parking.len()
        invariant
            ops.desktop() == old(ops).desktop(),
            i <= parking@.len(),
            sets == parking_view(parking@),
            req == request@,
            with == with_windows@,
            with == set_ids(sets),
            parking_allocator::monitors_fit(request.live_monitors@),
            start == old(ops).history(),
            before == old(slots)@,
            slots0 == decoded(before),
            ({
                let p = parked_upto(req, with, slots0, sets, i as nat);
                &&& p.ok
                &&& ops.history() == start + p.calls
                &&& keys@ == p.keys
                &&& decoded(slots@) == p.slots
                &&& p.dealt ==> well_written(slots@, p.slots)
                &&& !p.dealt ==> slots@ == before
            }),
        decreases parking@.len() - i,
    {
        let ghost b = parked_upto(req, with, slots0, sets, i as nat);
        let ghost p = park_of(req, with, b.slots, sets[i as int].set, sets[i as int].windows);
        let ghost n = parked_upto(req, with, slots0, sets, (i + 1) as nat);
        assert(sets[i as int] == parking@[i as int]@);
        let set = &parking[i];
        let one = park_workset(ops, set.set, &set.windows, request, slots, &with_windows);
        assert(start + b.calls + p.calls =~= start + n.calls);
        match one {
            Ok(more) => {
                push_all(&mut keys, &more);
            },
            Err(reason) => {
                proof {
                    lemma_parked_stays_failed(req, with, slots0, sets, (i + 1) as nat, sets.len());
                }
                return Err(reason);
            },
        }
        i += 1;
    }
    Ok(keys)
}

fn push_all(to: &mut Vec<isize>, more: &Vec<isize>)
    ensures
        final(to)@ == old(to)@ + more@,
{
    let mut k: usize = 0;
    assert(to@ + more@.take(0) =~= to@);
    while k < more.len()
        invariant
            k <= more@.len(),
            to@ == old(to)@ + more@.take(k as int),
        decreases more@.len() - k,
    {
        to.push(more[k]);
        assert(to@ =~= old(to)@ + more@.take(k + 1));
        k += 1;
    }
    assert(more@.take(more@.len() as int) =~= more@);
}

/// Where the windows stand on the main screen, if all of them have a place there.
fn find_places(request: &SwitchRequest, resolved: &Vec<ResolvedWindow>) -> (r: Option<
    Vec<RestoreOutcome>,
>)
    requires
        parking_allocator::monitors_fit(request.live_monitors@),
    ensures
        r is Some <==> all_have_place(request@, resolved_view(resolved@)),
        r matches Some(places) ==> places@.len() == resolved@.len() && forall|k: int|
            0 <= k < resolved@.len() ==> main_place(
                request@,
                #[trigger] resolved_view(resolved@)[k],
            ) == Some(places@[k]),
{
    let ghost ws = resolved_view(resolved@);
    let mut places: Vec<RestoreOutcome> = Vec::new();
    let mut j: usize = 0;
    while j < resolved.len()
        invariant
            j <= resolved@.len(),
            parking_allocator::monitors_fit(request.live_monitors@),
            ws == resolved_view(resolved@),
            places@.len() == j,
            forall|k: int|
                0 <= k < j ==> main_place(request@, #[trigger] ws[k]) == Some(places@[k]),
        decreases resolved@.len() - j,
    {
        assert(ws[j as int] == resolved@[j as int]@);
        match main_placement::resolve_main_restore(
            &resolved[j].managed.main_placement,
            request.live_monitors,
            request.main_monitor_ids,
        ) {
            Some(place) => {
                places.push(place);
            },
            None => {
                assert(main_place(request@, ws[j as int]) is None);
                return None;
            },
        }
        j += 1;
    }
    Some(places)
}

fn comes_out_of_fullscreen(request: &SwitchRequest, target: &Workset) -> (r: bool)
    ensures
        r == leaves_fullscreen(request@, *target),
{
    match target.parking_policy {
        ParkingPolicy::SubScreen { sub_screen_id } => {
            let sole = sub_screens::sub_screen_sharer_count(request.worksets, sub_screen_id) <= 1;
            let area_fills = match find_area(request.sub_screens, sub_screen_id) {
                Some(s) => s.fullscreen,
                None => false,
            };
            sole && (target.fullscreen_when_parked || area_fills)
        },
        _ => target.fullscreen_when_parked,
    }
}

/// Brings the target back to the main screen, stacks and focuses it, and sends parked windows
/// the full-screen keys.
fn arrive<W: WindowOps>(
    ops: &mut Recorder<W>,
    resolved: &Vec<ResolvedWindow>,
    outcomes: &Vec<RestoreOutcome>,
    leaves: bool,
    keys: &Vec<isize>,
    Ghost(req): Ghost<RequestView>,
    Ghost(target): Ghost<Workset>,
) -> (r: Option<isize>)
    requires
        outcomes@.len() == resolved@.len(),
        forall|k: int|
            0 <= k < resolved@.len() ==> main_place(
                req,
                #[trigger] resolved_view(resolved@)[k],
            ) == Some(outcomes@[k]),
        leaves == leaves_fullscreen(req, target),
    ensures
        final(ops).desktop() == old(ops).desktop(),
        final(ops).history() == old(ops).history() + arrival_calls(
            req,
            target,
            resolved_view(resolved@),
            keys@,
        ),
        r == top_handle(resolved_view(resolved@), by_height(resolved_view(resolved@))),
{
    let ghost start = ops.history();
    let ghost ws = resolved_view(resolved@);
    let ghost back = bring_back_calls(req, ws, leaves);
    let n: usize = resolved.len();
    let mut i: usize = 0;
    assert(start + back.take(0) =~= start);
    while i < n
        invariant
            ops.desktop() == old(ops).desktop(),
            i <= n == resolved@.len(),
            outcomes@.len() == n,
            ws == resolved_view(resolved@),
            back == bring_back_calls(req, ws, leaves),
            forall|k: int| 0 <= k < n ==> main_place(req, #[trigger] ws[k]) == Some(outcomes@[k]),
            ops.history() == start + back.take(i as int),
        decreases n - i,
    {
        assert(ws[i as int] == resolved@[i as int]@);
        let maximized = outcomes[i].show_state == SavedShowState::Maximized;
        if leaves {
            ops.exit_fullscreen(resolved[i].hwnd, outcomes[i].rect, maximized, false);
        } else {
            ops.set_placement(resolved[i].hwnd, outcomes[i].rect, maximized, false);
        }
        proof {
            assert(back.take(i + 1) =~= back.take(i as int).push(back[i as int]));
            assert(start + back.take(i + 1) =~= (start + back.take(i as int)).push(back[i as int]));
        }
        i += 1;
    }
    assert(back.take(n as int) =~= back);
    let mut heights: Vec<i32> = Vec::new();
    let mut k: usize = 0;
    while k < n
        invariant
            ops.desktop() == old(ops).desktop(),
            k <= n == resolved@.len(),
            ws == resolved_view(resolved@),
            heights@ == z_keys(ws).take(k as int),
        decreases n - k,
    {
        heights.push(resolved[k].managed.z_order);
        assert(heights@ =~= z_keys(ws).take(k + 1));
        k += 1;
    }
    assert(heights@ =~= z_keys(ws));
    let o = order::stable_order(&heights);
    proof {
        order::lemma_stable_order_unique(o@, by_height(ws), z_keys(ws));
    }
    let ghost stack = stack_calls(ws, o@);
    let mut m: usize = 1;
    assert(start + back + stack.take(0) =~= start + back);
    while m < n
        invariant
            ops.desktop() == old(ops).desktop(),
            1 <= m,
            m <= n || (n == 0 && m == 1),
            n == resolved@.len(),
            o@.len() == n,
            forall|a: int| 0 <= a < o@.len() ==> (#[trigger] o@[a]) < n,
            ws == resolved_view(resolved@),
            stack == stack_calls(ws, o@),
            ops.history() == start + back + stack.take(m - 1),
        decreases n - m,
    {
        let above: usize = o[m];
        let below: usize = o[m - 1];
        assert(ws[above as int] == resolved@[above as int]@);
        assert(ws[below as int] == resolved@[below as int]@);
        ops.set_z_order_after(resolved[above].hwnd, Some(resolved[below].hwnd));
        proof {
            assert(stack.take(m as int) =~= stack.take(m - 1).push(stack[m - 1]));
            assert(start + back + stack.take(m as int) =~= (start + back + stack.take(
                m - 1,
            )).push(stack[m - 1]));
        }
        m += 1;
    }
    assert(stack.take(m - 1) =~= stack);
    let focus = if n == 0 {
        None
    } else {
        let top: usize = o[n - 1];
        assert(ws[top as int] == resolved@[top as int]@);
        Some(resolved[top].hwnd)
    };
    if let Some(hwnd) = focus {
        ops.set_foreground(hwnd);
    }
    let ghost so_far = start + back + stack + focus_calls(focus);
    assert(ops.history() =~= so_far);
    let ghost sent = key_calls(keys@, focus);
    let mut q: usize = 0;
    assert(so_far + sent.take(0) =~= so_far);
    while q < keys.len()
        invariant
            ops.desktop() == old(ops).desktop(),
            q <= keys@.len(),
            sent == key_calls(keys@, focus),
            ops.history() == so_far + sent.take(q as int),
        decreases keys@.len() - q,
    {
        ops.send_fullscreen_keys(keys[q], focus);
        proof {
            assert(sent.take(q + 1) =~= sent.take(q as int).push(sent[q as int]));
            assert(so_far + sent.take(q + 1) =~= (so_far + sent.take(q as int)).push(
                sent[q as int],
            ));
        }
        q += 1;
    }
    proof {
        assert(sent.take(sent.len() as int) =~= sent);
        assert(so_far + sent =~= start + arrival_calls(req, target, ws, keys@));
    }
    focus
}

/// Once the windows are found again, each that was found is bound to its handle, and every other
/// binding stays as it was.
pub proof fn law_found_windows_are_remembered(
    bindings: Map<Uuid, isize>,
    decisions: Map<Uuid, MatchView>,
    now: Map<Uuid, isize>,
    id: Uuid,
)
    requires
        learned(bindings, decisions, now),
    ensures
        workset_service::handle_of(decisions, id) matches Some(h) ==> now.contains_key(id)
            && now[id] == h,
        workset_service::handle_of(decisions, id) is None ==> now.contains_key(id)
            == bindings.contains_key(id),
        workset_service::handle_of(decisions, id) is None && bindings.contains_key(id) ==> now[id]
            == bindings[id],
{
    assert(now.contains_key(id) == (bindings.contains_key(id) || workset_service::handle_of(
        decisions,
        id,
    ) is Some));
}

/// The slots that are kept as texts come back as they were: an entry whose id and slot can be read
/// counts, unless a later one has the same id; and nothing else counts.
pub proof fn law_kept_slots_are_read_again(entries: Seq<(String, String)>, id: Uuid)
    ensures
        decoded(entries).contains_key(id) <==> exists|i: int|
            0 <= i < entries.len() && ids::uuid_read((#[trigger] entries[i]).0@) == Some(id)
                && parking_allocator::slot_read(entries[i].1@) is Some,
        forall|i: int|
            0 <= i < entries.len() && ids::uuid_read((#[trigger] entries[i]).0@) == Some(id)
                && parking_allocator::slot_read(entries[i].1@) is Some && (forall|j: int|
                i < j < entries.len() ==> ids::uuid_read((#[trigger] entries[j]).0@) != Some(id))
                ==> Some(decoded(entries)[id]) == parking_allocator::slot_read(entries[i].1@),
    decreases entries.len(),
{
    if entries.len() > 0 {
        let rest = entries.drop_last();
        law_kept_slots_are_read_again(rest, id);
        let n = entries.len() - 1;
        assert(entries[n] == entries.last());
        if decoded(rest).contains_key(id) {
            let i = choose|i: int|
                0 <= i < rest.len() && ids::uuid_read((#[trigger] rest[i]).0@) == Some(id)
                    && parking_allocator::slot_read(rest[i].1@) is Some;
            assert(entries[i] == rest[i]);
        }
        if exists|i: int|
            0 <= i < entries.len() && ids::uuid_read((#[trigger] entries[i]).0@) == Some(id)
                && parking_allocator::slot_read(entries[i].1@) is Some {
            let i = choose|i: int|
                0 <= i < entries.len() && ids::uuid_read((#[trigger] entries[i]).0@) == Some(id)
                    && parking_allocator::slot_read(entries[i].1@) is Some;
            if i < n {
                assert(rest[i] == entries[i]);
            }
        }
        assert forall|i: int|
            0 <= i < entries.len() && ids::uuid_read((#[trigger] entries[i]).0@) == Some(id)
                && parking_allocator::slot_read(entries[i].1@) is Some && (forall|j: int|
                i < j < entries.len() ==> ids::uuid_read((#[trigger] entries[j]).0@) != Some(id))
            implies Some(decoded(entries)[id]) == parking_allocator::slot_read(
            entries[i].1@,
        ) by {
            if i < n {
                assert(rest[i] == entries[i]);
                assert forall|j: int| i < j < rest.len() implies ids::uuid_read(
                    (#[trigger] rest[j]).0@,
                ) != Some(id) by {
                    assert(rest[j] == entries[j]);
                }
                assert(ids::uuid_read(entries[n].0@) != Some(id));
            }
        }
    }
}

} // verus!
