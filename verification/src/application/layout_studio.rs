//! The layout studio: which role each monitor plays, and what its tiles and rows say.

use vstd::prelude::*;

use crate::application::layout_service;
use crate::application::layout_service::UndoSnapshot;
use crate::application::monitor_resolution;
use crate::domain::config::{AppConfig, UnknownWindowPolicy};
use crate::domain::monitor::{AutoSplit, MonitorInfo, SavedMonitor};
use crate::domain::placement::PixelRect;
use crate::domain::workset::{ParkingPolicy, SubScreen, Workset};
use crate::ids;
use crate::ids::Uuid;
use crate::keyed;
use crate::order;
use crate::text;
use crate::windowing::enumerate::TopLevelWindow;
use crate::winpath;

verus! {

/// What the studio holds besides the configuration: the monitors as last looked at, and edits that
/// are not saved yet.
#[derive(Debug)]
pub struct LayoutStudioState {
    pub monitors: Vec<MonitorInfo>,
    /// How monitors are split, `None` for a split by size.
    pub auto_splits: Vec<(String, Option<AutoSplit>)>,
    pub excluded_overrides: Vec<(String, bool)>,
    pub selected_index: Option<usize>,
    pub undo_snapshot: UndoSnapshot,
    pub pending_candidates: Vec<TopLevelWindow>,
}

pub open spec fn is_saved_as(saved: Seq<SavedMonitor>, name: Seq<char>) -> spec_fn(int) -> bool {
    |i: int| saved[i].stable_id@ == name
}

/// The saved monitor of that name, if any.
pub open spec fn saved_as(saved: Seq<SavedMonitor>, name: Seq<char>) -> Option<SavedMonitor> {
    match order::first_where(saved.len(), is_saved_as(saved, name)) {
        Some(i) => Some(saved[i]),
        None => None,
    }
}

/// How a monitor is split: as edited, or else as saved.
pub open spec fn split_of(
    splits: Seq<(String, Option<AutoSplit>)>,
    saved: Seq<SavedMonitor>,
    name: Seq<char>,
) -> Option<AutoSplit> {
    match keyed::value_of(splits, name) {
        Some(choice) => choice,
        None => match saved_as(saved, name) {
            Some(m) => m.auto_split,
            None => None,
        },
    }
}

/// Whether a monitor is left alone: as edited, or else as saved.
pub open spec fn left_alone(
    overrides: Seq<(String, bool)>,
    saved: Seq<SavedMonitor>,
    name: Seq<char>,
) -> bool {
    match keyed::value_of(overrides, name) {
        Some(excluded) => excluded,
        None => match saved_as(saved, name) {
            Some(m) => m.excluded,
            None => false,
        },
    }
}

fn find_saved<'a>(saved: &'a Vec<SavedMonitor>, name: &str) -> (r: Option<&'a SavedMonitor>)
    ensures
        match r {
            Some(m) => saved_as(saved@, name@) == Some(*m),
            None => saved_as(saved@, name@) is None,
        },
{
    let ghost test = is_saved_as(saved@, name@);
    let mut i: usize = 0;
    while i < saved.len()
        invariant
            i <= saved@.len(),
            test == is_saved_as(saved@, name@),
            forall|k: int| 0 <= k < i ==> !#[trigger] test(k),
        decreases saved@.len() - i,
    {
        if text::same_text(saved[i].stable_id.as_str(), name) {
            proof {
                assert(test(i as int));
                order::lemma_first_where_some(saved@.len(), test, i as int);
            }
            return Some(&saved[i]);
        }
        assert(!test(i as int));
        i += 1;
    }
    proof {
        order::lemma_first_where_none(saved@.len(), test);
    }
    None
}

impl LayoutStudioState {
    pub fn new() -> (r: LayoutStudioState)
        ensures
            r.monitors@.len() == 0,
            r.auto_splits@.len() == 0,
            r.excluded_overrides@.len() == 0,
            r.selected_index is None,
            r.undo_snapshot.entries@.len() == 0,
            r.pending_candidates@.len() == 0,
    {
        LayoutStudioState {
            monitors: Vec::new(),
            auto_splits: Vec::new(),
            excluded_overrides: Vec::new(),
            selected_index: None,
            undo_snapshot: UndoSnapshot { entries: Vec::new() },
            pending_candidates: Vec::new(),
        }
    }

    pub fn auto_split_for(&self, config: &AppConfig, device_name: &str) -> (r: Option<AutoSplit>)
        ensures
            r == split_of(self.auto_splits@, config.monitors@, device_name@),
    {
        match keyed::lookup(&self.auto_splits, device_name) {
            Some(choice) => choice,
            None => match find_saved(&config.monitors, device_name) {
                Some(m) => m.auto_split,
                None => None,
            },
        }
    }

    pub fn excluded_for(&self, config: &AppConfig, device_name: &str) -> (r: bool)
        ensures
            r == left_alone(self.excluded_overrides@, config.monitors@, device_name@),
    {
        match keyed::lookup(&self.excluded_overrides, device_name) {
            Some(excluded) => excluded,
            None => match find_saved(&config.monitors, device_name) {
                Some(m) => m.excluded,
                None => false,
            },
        }
    }

    /// The monitor that is selected.
    pub open spec fn selected(&self) -> Option<MonitorInfo> {
        match self.selected_index {
            Some(i) => if i < self.monitors@.len() {
                Some(self.monitors@[i as int])
            } else {
                None
            },
            None => None,
        }
    }

    /// The name of the monitor that is selected.
    pub open spec fn selected_name(&self) -> Option<Seq<char>> {
        match self.selected() {
            Some(m) => Some(m.device_name@),
            None => None,
        }
    }

    fn name_of_selected(&self) -> (r: Option<String>)
        ensures
            r is Some <==> self.selected() is Some,
            r matches Some(name) ==> name == self.selected()->0.device_name,
    {
        let i: usize = self.selected_index?;
        if i < self.monitors.len() {
            Some(self.monitors[i].device_name.clone())
        } else {
            None
        }
    }

    /// Chooses how a monitor is split: 1, 2 or 4 cells, anything else by its size.
    pub fn set_auto_split(&mut self, monitor_index: usize, choice: i32)
        ensures
            final(self).monitors == old(self).monitors,
            final(self).excluded_overrides == old(self).excluded_overrides,
            final(self).selected_index == old(self).selected_index,
            final(self).undo_snapshot == old(self).undo_snapshot,
            final(self).pending_candidates == old(self).pending_candidates,
            monitor_index >= old(self).monitors@.len() ==> final(self).auto_splits
                == old(self).auto_splits,
            monitor_index < old(self).monitors@.len() ==> forall|name: Seq<char>| #[trigger]
                keyed::value_of(final(self).auto_splits@, name) == if name
                    == old(self).monitors@[monitor_index as int].device_name@ {
                    Some(chosen_split(choice))
                } else {
                    keyed::value_of(old(self).auto_splits@, name)
                },
    {
        if monitor_index >= self.monitors.len() {
            return;
        }
        let split = match choice {
            1 => Some(AutoSplit::One),
            2 => Some(AutoSplit::TwoColumns),
            4 => Some(AutoSplit::FourGrid),
            _ => None,
        };
        let name = self.monitors[monitor_index].device_name.clone();
        keyed::put(&mut self.auto_splits, name.as_str(), split);
    }
}

pub open spec fn chosen_split(choice: i32) -> Option<AutoSplit> {
    if choice == 1 {
        Some(AutoSplit::One)
    } else if choice == 2 {
        Some(AutoSplit::TwoColumns)
    } else if choice == 4 {
        Some(AutoSplit::FourGrid)
    } else {
        None
    }
}

// ---------------------------------------------------------------------------
// Texts
// ---------------------------------------------------------------------------

pub open spec fn split_text(split: Option<AutoSplit>, work_area: PixelRect) -> Seq<char> {
    match split {
        None => "自動 ("@ + text::decimal(layout_service::split_by_size(work_area).cells())
            + "分割)"@,
        Some(s) => text::decimal(s.cells()) + "分割"@,
    }
}

/// Says how a monitor is split. For a split by size, what that comes to is said too.
pub fn auto_split_label(split: Option<AutoSplit>, work_area: PixelRect) -> (r: String)
    ensures
        r@ == split_text(split, work_area),
{
    match split {
        None => {
            let cells: usize = layout_service::resolve_auto_split(work_area).cell_count();
            let number = text::decimal_text(cells as u64);
            text::joined3("自動 (", number.as_str(), "分割)")
        },
        Some(s) => {
            let number = text::decimal_text(s.cell_count() as u64);
            text::joined2(number.as_str(), "分割")
        },
    }
}

pub open spec fn is_text(ids: Seq<String>, name: Seq<char>) -> spec_fn(int) -> bool {
    |i: int| ids[i]@ == name
}

/// Where a name first stands in a list.
pub open spec fn place_of(ids: Seq<String>, name: Seq<char>) -> Option<int> {
    order::first_where(ids.len(), is_text(ids, name))
}

fn find_place(ids: &Vec<String>, name: &str) -> (r: Option<usize>)
    ensures
        match r {
            Some(i) => place_of(ids@, name@) == Some(i as int) && i < ids@.len(),
            None => place_of(ids@, name@) is None,
        },
{
    let ghost test = is_text(ids@, name@);
    let mut i: usize = 0;
    while i < ids.len()
        invariant
            i <= ids@.len(),
            test == is_text(ids@, name@),
            forall|k: int| 0 <= k < i ==> !#[trigger] test(k),
        decreases ids@.len() - i,
    {
        if text::same_text(ids[i].as_str(), name) {
            proof {
                assert(test(i as int));
                order::lemma_first_where_some(ids@.len(), test, i as int);
            }
            return Some(i);
        }
        assert(!test(i as int));
        i += 1;
    }
    proof {
        order::lemma_first_where_none(ids@.len(), test);
    }
    None
}

pub open spec fn has_monitor(subs: Seq<SubScreen>, name: Seq<char>) -> spec_fn(int) -> bool {
    |i: int| monitor_resolution::names(subs[i].monitor_ids@, name)
}

/// The first named area that a monitor belongs to.
pub open spec fn area_of(subs: Seq<SubScreen>, name: Seq<char>) -> Option<int> {
    order::first_where(subs.len(), has_monitor(subs, name))
}

fn find_area_of(subs: &Vec<SubScreen>, name: &str) -> (r: Option<usize>)
    ensures
        match r {
            Some(i) => area_of(subs@, name@) == Some(i as int) && i < subs@.len(),
            None => area_of(subs@, name@) is None,
        },
{
    let ghost test = has_monitor(subs@, name@);
    let mut i: usize = 0;
    while i < subs.len()
        invariant
            i <= subs@.len(),
            test == has_monitor(subs@, name@),
            forall|k: int| 0 <= k < i ==> !#[trigger] test(k),
        decreases subs@.len() - i,
    {
        if monitor_resolution::is_named(subs[i].monitor_ids.as_slice(), name) {
            proof {
                assert(test(i as int));
                order::lemma_first_where_some(subs@.len(), test, i as int);
            }
            return Some(i);
        }
        assert(!test(i as int));
        i += 1;
    }
    proof {
        order::lemma_first_where_none(subs@.len(), test);
    }
    None
}

/// The scale of a monitor in percent.
pub open spec fn scale_percent(dpi_x: u32) -> nat {
    (dpi_x * 100 / 96) as nat
}

fn percent_text(dpi_x: u32) -> (r: String)
    ensures
        r@ == text::decimal(scale_percent(dpi_x)),
{
    text::decimal_text(dpi_x as u64 * 100 / 96)
}

/// Which role a monitor plays, in words.
pub open spec fn role_text(config: AppConfig, state: LayoutStudioState, m: MonitorInfo) -> Seq<
    char,
> {
    match place_of(config.main_monitor_ids@, m.device_name@) {
        Some(i) => "MAIN "@ + text::decimal((i + 1) as nat),
        None => if left_alone(state.excluded_overrides@, config.monitors@, m.device_name@) {
            "対象外"@
        } else {
            match area_of(config.sub_screens@, m.device_name@) {
                Some(i) => "サブ: "@ + config.sub_screens@[i].name@,
                None => split_text(
                    split_of(state.auto_splits@, config.monitors@, m.device_name@),
                    m.work_area_px,
                ),
            }
        },
    }
}

pub open spec fn size_text(rect: PixelRect) -> Seq<char> {
    text::signed_decimal(rect.width as int) + "×"@ + text::signed_decimal(rect.height as int)
}

fn size_label(rect: &PixelRect) -> (r: String)
    ensures
        r@ == size_text(*rect),
{
    let width = text::signed_decimal_text(rect.width as i64);
    let height = text::signed_decimal_text(rect.height as i64);
    text::joined3(width.as_str(), "×", height.as_str())
}

/// What a monitor's tile says and shows.
#[derive(Debug)]
pub struct MonitorTile {
    pub device_name: String,
    pub detail_label: String,
    pub role_label: String,
    pub is_main: bool,
    pub is_sub: bool,
    pub is_excluded: bool,
    pub selected: bool,
}

pub open spec fn is_tile(
    tile: MonitorTile,
    config: AppConfig,
    state: LayoutStudioState,
    m: MonitorInfo,
    index: int,
) -> bool {
    &&& tile.device_name@ == m.device_name@
    &&& tile.detail_label@ == size_text(m.bounds_px) + "  "@ + text::decimal(
        scale_percent(m.dpi_x),
    ) + "%"@
    &&& tile.role_label@ == role_text(config, state, m)
    &&& tile.is_main == place_of(config.main_monitor_ids@, m.device_name@) is Some
    &&& tile.is_sub == area_of(config.sub_screens@, m.device_name@) is Some
    &&& tile.is_excluded == left_alone(
        state.excluded_overrides@,
        config.monitors@,
        m.device_name@,
    )
    &&& tile.selected == (state.selected_index == Some(index as usize))
}

fn describe_monitor(
    config: &AppConfig,
    state: &LayoutStudioState,
    m: &MonitorInfo,
    index: usize,
) -> (r: MonitorTile)
    ensures
        is_tile(r, *config, *state, *m, index as int),
{
    let name = m.device_name.as_str();
    let place = find_place(&config.main_monitor_ids, name);
    let excluded = state.excluded_for(config, name);
    let area = find_area_of(&config.sub_screens, name);
    let role_label = match place {
        Some(i) => {
            let n: usize = config.main_monitor_ids.len();
            let number = text::decimal_text(i as u64 + 1);
            text::joined2("MAIN ", number.as_str())
        },
        None => if excluded {
            text::owned("対象外")
        } else {
            match area {
                Some(i) => text::joined2("サブ: ", config.sub_screens[i].name.as_str()),
                None => auto_split_label(state.auto_split_for(config, name), m.work_area_px),
            }
        },
    };
    let size = size_label(&m.bounds_px);
    let percent = percent_text(m.dpi_x);
    let mut detail_label = text::joined3(size.as_str(), "  ", percent.as_str());
    detail_label.append("%");
    let selected = match state.selected_index {
        Some(i) => i == index,
        None => false,
    };
    MonitorTile {
        device_name: m.device_name.clone(),
        detail_label,
        role_label,
        is_main: place.is_some(),
        is_sub: area.is_some(),
        is_excluded: excluded,
        selected,
    }
}

/// A tile for each of the monitors.
pub fn describe_monitors(
    config: &AppConfig,
    state: &LayoutStudioState,
    monitors: &[MonitorInfo],
) -> (r: Vec<MonitorTile>)
    ensures
        r@.len() == monitors@.len(),
        forall|i: int|
            0 <= i < r@.len() ==> is_tile(#[trigger] r@[i], *config, *state, monitors@[i], i),
{
    let mut out: Vec<MonitorTile> = Vec::new();
    let mut i: usize = 0;
    while i < monitors.len()
        invariant
            i <= monitors@.len(),
            out@.len() == i,
            forall|k: int|
                0 <= k < i ==> is_tile(#[trigger] out@[k], *config, *state, monitors@[k], k),
        decreases monitors@.len() - i,
    {
        out.push(describe_monitor(config, state, &monitors[i], i));
        i += 1;
    }
    out
}

/// What the pane on the selected monitor shows.
#[derive(Debug)]
pub struct SelectedMonitor {
    pub is_main: bool,
    pub excluded: bool,
    /// 0 for a split by size, or the number of cells.
    pub auto_split: i32,
    /// -1 where the index is too large to be shown.
    pub index: i32,
    pub detail: String,
}

pub open spec fn detail_text(m: MonitorInfo) -> Seq<char> {
    m.device_name@ + "\n"@ + size_text(m.bounds_px) + " (作業領域 "@ + size_text(m.work_area_px)
        + ")\nDPI "@ + text::decimal(scale_percent(m.dpi_x)) + "%"@ + if m.is_primary {
        "\nWindowsのプライマリモニター"@
    } else {
        Seq::<char>::empty()
    }
}

fn describe_detail(m: &MonitorInfo) -> (r: String)
    ensures
        r@ == detail_text(*m),
{
    let mut out = text::joined2(m.device_name.as_str(), "\n");
    out.append(size_label(&m.bounds_px).as_str());
    out.append(" (作業領域 ");
    out.append(size_label(&m.work_area_px).as_str());
    out.append(")\nDPI ");
    out.append(percent_text(m.dpi_x).as_str());
    out.append("%");
    if m.is_primary {
        out.append("\nWindowsのプライマリモニター");
    }
    proof {
        let without = m.device_name@ + "\n"@ + size_text(m.bounds_px) + " (作業領域 "@ + size_text(
            m.work_area_px,
        ) + ")\nDPI "@ + text::decimal(scale_percent(m.dpi_x)) + "%"@;
        assert(without + Seq::<char>::empty() =~= without);
    }
    out
}

pub open spec fn split_number(split: Option<AutoSplit>) -> int {
    match split {
        None => 0,
        Some(s) => s.cells() as int,
    }
}

/// Describes the monitor that is selected, if there is one.
pub fn describe_selected(config: &AppConfig, state: &LayoutStudioState) -> (r: Option<
    SelectedMonitor,
>)
    ensures
        r is Some <==> state.selected() is Some,
        r matches Some(shown) ==> {
            let m = state.selected()->0;
            &&& shown.is_main == monitor_resolution::names(
                config.main_monitor_ids@,
                m.device_name@,
            )
            &&& shown.excluded == left_alone(
                state.excluded_overrides@,
                config.monitors@,
                m.device_name@,
            )
            &&& shown.auto_split == split_number(
                split_of(state.auto_splits@, config.monitors@, m.device_name@),
            )
            &&& shown.index == if state.selected_index->0 <= i32::MAX {
                state.selected_index->0 as int
            } else {
                -1
            }
            &&& shown.detail@ == detail_text(m)
        },
{
    let i: usize = state.selected_index?;
    if i >= state.monitors.len() {
        return None;
    }
    let m = &state.monitors[i];
    let name = m.device_name.as_str();
    let auto_split: i32 = match state.auto_split_for(config, name) {
        None => 0,
        Some(AutoSplit::One) => 1,
        Some(AutoSplit::TwoColumns) => 2,
        Some(AutoSplit::FourGrid) => 4,
    };
    let index: i32 = if i <= i32::MAX as usize {
        i as i32
    } else {
        -1
    };
    Some(
        SelectedMonitor {
            is_main: monitor_resolution::is_named(config.main_monitor_ids.as_slice(), name),
            excluded: state.excluded_for(config, name),
            auto_split,
            index,
            detail: describe_detail(m),
        },
    )
}

// ---------------------------------------------------------------------------
// Regions of named areas
// ---------------------------------------------------------------------------

/// Where a region stands in the round: the whole area, its halves, its quarters. Anything else
/// counts as the whole.
pub open spec fn region_number(split: AutoSplit, cell: nat) -> int {
    match split {
        AutoSplit::One => 0,
        AutoSplit::TwoColumns => if cell < 2 {
            (1 + cell) as int
        } else {
            0
        },
        AutoSplit::FourGrid => if cell < 4 {
            (3 + cell) as int
        } else {
            0
        },
    }
}

/// The region at a place of the round.
pub open spec fn region_at(number: int) -> (AutoSplit, usize) {
    if number == 0 {
        (AutoSplit::One, 0)
    } else if number <= 2 {
        (AutoSplit::TwoColumns, (number - 1) as usize)
    } else {
        (AutoSplit::FourGrid, (number - 3) as usize)
    }
}

pub open spec fn region_name(number: int) -> Seq<char> {
    if number == 1 {
        "左半分"@
    } else if number == 2 {
        "右半分"@
    } else if number == 3 {
        "左上¼"@
    } else if number == 4 {
        "右上¼"@
    } else if number == 5 {
        "左下¼"@
    } else if number == 6 {
        "右下¼"@
    } else {
        "全体"@
    }
}

fn number_of_region(split: AutoSplit, cell: usize) -> (r: usize)
    ensures
        r == region_number(split, cell as nat),
        r < 7,
{
    match split {
        AutoSplit::One => 0,
        AutoSplit::TwoColumns => if cell < 2 {
            1 + cell
        } else {
            0
        },
        AutoSplit::FourGrid => if cell < 4 {
            3 + cell
        } else {
            0
        },
    }
}

/// Names the region of a named area.
pub fn sub_region_label(split: AutoSplit, cell: usize) -> (r: &'static str)
    ensures
        r@ == region_name(region_number(split, cell as nat)),
{
    match number_of_region(split, cell) {
        1 => "左半分",
        2 => "右半分",
        3 => "左上¼",
        4 => "右上¼",
        5 => "左下¼",
        6 => "右下¼",
        _ => "全体",
    }
}

/// The region that follows in the round.
pub open spec fn next_region(split: AutoSplit, cell: nat) -> (AutoSplit, usize) {
    region_at((region_number(split, cell) + 1) % 7)
}

pub fn next_sub_region(split: AutoSplit, cell: usize) -> (r: (AutoSplit, usize))
    ensures
        r == next_region(split, cell as nat),
{
    let next: usize = (number_of_region(split, cell) + 1) % 7;
    if next == 0 {
        (AutoSplit::One, 0)
    } else if next <= 2 {
        (AutoSplit::TwoColumns, next - 1)
    } else {
        (AutoSplit::FourGrid, next - 3)
    }
}

/// A region some steps on in the round.
pub open spec fn region_after(region: (AutoSplit, usize), steps: nat) -> (AutoSplit, usize)
    decreases steps,
{
    if steps == 0 {
        region
    } else {
        let before = region_after(region, (steps - 1) as nat);
        next_region(before.0, before.1 as nat)
    }
}

proof fn lemma_region_after(region: (AutoSplit, usize), steps: nat)
    requires
        (region.1 as int) < region.0.cells(),
    ensures
        region_after(region, steps) == region_at(
            (region_number(region.0, region.1 as nat) + steps) % 7,
        ),
    decreases steps,
{
    if steps > 0 {
        lemma_region_after(region, (steps - 1) as nat);
        let n = region_number(region.0, region.1 as nat);
        let k = (n + (steps - 1)) % 7;
        assert(0 <= k < 7);
        assert(region_number(region_at(k).0, region_at(k).1 as nat) == k);
        assert((k + 1) % 7 == (n + steps) % 7);
    }
}

/// The round has seven regions: after seven steps it is back where it began, and before that it
/// is somewhere else.
pub proof fn law_regions_come_round(region: (AutoSplit, usize), steps: nat)
    requires
        (region.1 as int) < region.0.cells(),
        0 < steps < 7,
    ensures
        region_after(region, 7) == region,
        region_after(region, steps) != region,
{
    lemma_region_after(region, 7);
    lemma_region_after(region, steps);
    let n = region_number(region.0, region.1 as nat);
    assert((n + 7) % 7 == n);
    let k = (n + steps) % 7;
    assert(k != n);
    assert(region_number(region_at(k).0, region_at(k).1 as nat) == k);
}

/// What the list of named areas says of one of them.
#[derive(Debug)]
pub struct SubScreenRow {
    pub name: String,
    /// The selected monitor belongs to it.
    pub assigned: bool,
    pub region_label: String,
    pub fullscreen: bool,
}

pub open spec fn is_row(row: SubScreenRow, sub: SubScreen, device_name: Seq<char>) -> bool {
    &&& row.name@ == sub.name@
    &&& row.assigned == monitor_resolution::names(sub.monitor_ids@, device_name)
    &&& row.region_label@ == region_name(region_number(sub.split, sub.cell_index as nat))
    &&& row.fullscreen == sub.fullscreen
}

/// Lists the named areas, as seen from a monitor.
pub fn sub_screen_rows(config: &AppConfig, device_name: &str) -> (r: Vec<SubScreenRow>)
    ensures
        r@.len() == config.sub_screens@.len(),
        forall|i: int|
            0 <= i < r@.len() ==> is_row(#[trigger] r@[i], config.sub_screens@[i], device_name@),
{
    let mut out: Vec<SubScreenRow> = Vec::new();
    let mut i: usize = 0;
    while i < config.sub_screens.len()
        invariant
            i <= config.sub_screens@.len(),
            out@.len() == i,
            forall|k: int|
                0 <= k < i ==> is_row(#[trigger] out@[k], config.sub_screens@[k], device_name@),
        decreases config.sub_screens@.len() - i,
    {
        let sub = &config.sub_screens[i];
        out.push(
            SubScreenRow {
                name: sub.name.clone(),
                assigned: monitor_resolution::is_named(sub.monitor_ids.as_slice(), device_name),
                region_label: text::owned(sub_region_label(sub.split, sub.cell_index)),
                fullscreen: sub.fullscreen,
            },
        );
        i += 1;
    }
    out
}

// ---------------------------------------------------------------------------
// Roles
// ---------------------------------------------------------------------------

pub open spec fn other_than(name: Seq<char>) -> spec_fn(String) -> bool {
    |id: String| id@ != name
}

/// The list without a name.
pub open spec fn without(ids: Seq<String>, name: Seq<char>) -> Seq<String> {
    ids.filter(other_than(name))
}

/// The area is the same but for the monitors in it, which are those given.
pub open spec fn same_area(before: SubScreen, after: SubScreen, monitors: Seq<String>) -> bool {
    &&& after.id == before.id
    &&& after.name == before.name
    &&& after.monitor_ids@ == monitors
    &&& after.split == before.split
    &&& after.cell_index == before.cell_index
    &&& after.fullscreen == before.fullscreen
}

/// A monitor is taken out of every area, and nothing else changes in them.
pub open spec fn taken_out(
    before: Seq<SubScreen>,
    after: Seq<SubScreen>,
    name: Seq<char>,
) -> bool {
    &&& after.len() == before.len()
    &&& forall|i: int|
        0 <= i < before.len() ==> same_area(
            before[i],
            #[trigger] after[i],
            without(before[i].monitor_ids@, name),
        )
}

/// Nothing but the roles of monitors differs.
pub open spec fn same_but_roles(before: AppConfig, after: AppConfig) -> bool {
    &&& after.monitors == before.monitors
    &&& after.fixed_slots == before.fixed_slots
    &&& after.worksets == before.worksets
    &&& after.settings == before.settings
}

/// Nothing but the edits on monitors left alone differs.
pub open spec fn same_but_exclusions(
    before: LayoutStudioState,
    after: LayoutStudioState,
) -> bool {
    &&& after.monitors == before.monitors
    &&& after.auto_splits == before.auto_splits
    &&& after.selected_index == before.selected_index
    &&& after.undo_snapshot == before.undo_snapshot
    &&& after.pending_candidates == before.pending_candidates
}

/// A name is given an edit of its own, and every other keeps what it had.
pub open spec fn marked(
    before: Seq<(String, bool)>,
    after: Seq<(String, bool)>,
    name: Seq<char>,
    excluded: bool,
) -> bool {
    forall|k: Seq<char>| #[trigger]
        keyed::value_of(after, k) == if k == name {
            Some(excluded)
        } else {
            keyed::value_of(before, k)
        }
}

/// No name stands twice in the list.
pub open spec fn distinct(ids: Seq<String>) -> bool {
    forall|i: int, j: int| 0 <= i < j < ids.len() ==> (#[trigger] ids[i])@ != (#[trigger] ids[j])@
}

/// A monitor is in no two named areas.
pub open spec fn in_one_area(subs: Seq<SubScreen>, name: Seq<char>) -> bool {
    forall|i: int, j: int|
        0 <= i < j < subs.len() && monitor_resolution::names(
            (#[trigger] subs[i]).monitor_ids@,
            name,
        ) ==> !monitor_resolution::names((#[trigger] subs[j]).monitor_ids@, name)
}

pub open spec fn in_an_area(subs: Seq<SubScreen>, name: Seq<char>) -> bool {
    exists|i: int|
        0 <= i < subs.len() && monitor_resolution::names((#[trigger] subs[i]).monitor_ids@, name)
}

/// A monitor plays one role at most: it is a main one, or in one named area, or left alone, or
/// none of these.
pub open spec fn one_role(config: AppConfig, state: LayoutStudioState, name: Seq<char>) -> bool {
    let main = monitor_resolution::names(config.main_monitor_ids@, name);
    let area = in_an_area(config.sub_screens@, name);
    let out = left_alone(state.excluded_overrides@, config.monitors@, name);
    &&& !(main && area)
    &&& !(main && out)
    &&& !(area && out)
    &&& in_one_area(config.sub_screens@, name)
}

pub open spec fn roles_exclusive(config: AppConfig, state: LayoutStudioState) -> bool {
    &&& distinct(config.main_monitor_ids@)
    &&& forall|name: Seq<char>| #[trigger] one_role(config, state, name)
}

proof fn lemma_without(ids: Seq<String>, name: Seq<char>, k: Seq<char>)
    ensures
        monitor_resolution::names(without(ids, name), k) == (monitor_resolution::names(ids, k) && k
            != name),
{
    let pred = other_than(name);
    let kept = ids.filter(pred);
    order::lemma_filter_members(ids, pred);
    if monitor_resolution::names(kept, k) {
        let i = choose|i: int| 0 <= i < kept.len() && (#[trigger] kept[i])@ == k;
        assert(kept.contains(kept[i]));
        let j = choose|j: int| 0 <= j < ids.len() && ids[j] == kept[i];
        assert(ids[j]@ == k);
    }
    if monitor_resolution::names(ids, k) && k != name {
        let i = choose|i: int| 0 <= i < ids.len() && (#[trigger] ids[i])@ == k;
        assert(ids.contains(ids[i]));
        assert(kept.contains(ids[i]));
        let j = choose|j: int| 0 <= j < kept.len() && kept[j] == ids[i];
        assert(kept[j]@ == k);
    }
}

proof fn lemma_taken_out(
    before: Seq<SubScreen>,
    after: Seq<SubScreen>,
    name: Seq<char>,
    k: Seq<char>,
)
    requires
        taken_out(before, after, name),
    ensures
        !in_an_area(after, name),
        in_one_area(after, name),
        k != name ==> in_an_area(after, k) == in_an_area(before, k),
        k != name ==> in_one_area(after, k) == in_one_area(before, k),
{
    assert forall|i: int| 0 <= i < before.len() implies monitor_resolution::names(
        (#[trigger] after[i]).monitor_ids@,
        k,
    ) == (monitor_resolution::names(before[i].monitor_ids@, k) && k != name) by {
        lemma_without(before[i].monitor_ids@, name, k);
    }
    assert forall|i: int| 0 <= i < before.len() implies !monitor_resolution::names(
        (#[trigger] after[i]).monitor_ids@,
        name,
    ) by {
        lemma_without(before[i].monitor_ids@, name, name);
    }
    if k != name {
        if in_an_area(before, k) {
            let i = choose|i: int|
                0 <= i < before.len() && monitor_resolution::names(
                    (#[trigger] before[i]).monitor_ids@,
                    k,
                );
            assert(monitor_resolution::names(after[i].monitor_ids@, k));
        }
        if in_an_area(after, k) {
            let i = choose|i: int|
                0 <= i < after.len() && monitor_resolution::names(
                    (#[trigger] after[i]).monitor_ids@,
                    k,
                );
            assert(monitor_resolution::names(before[i].monitor_ids@, k));
        }
        if in_one_area(before, k) {
            assert forall|i: int, j: int|
                0 <= i < j < after.len() && monitor_resolution::names(
                    (#[trigger] after[i]).monitor_ids@,
                    k,
                ) implies !monitor_resolution::names((#[trigger] after[j]).monitor_ids@, k) by {
                assert(monitor_resolution::names(before[i].monitor_ids@, k));
            }
        }
        if in_one_area(after, k) {
            assert forall|i: int, j: int|
                0 <= i < j < before.len() && monitor_resolution::names(
                    (#[trigger] before[i]).monitor_ids@,
                    k,
                ) implies !monitor_resolution::names((#[trigger] before[j]).monitor_ids@, k) by {
                assert(monitor_resolution::names(after[i].monitor_ids@, k));
                if monitor_resolution::names(before[j].monitor_ids@, k) {
                    assert(monitor_resolution::names(after[j].monitor_ids@, k));
                }
            }
        }
    }
}

fn copy_without(ids: &Vec<String>, name: &str) -> (r: Vec<String>)
    ensures
        r@ == without(ids@, name@),
{
    let mut out: Vec<String> = Vec::new();
    let mut i: usize = 0;
    let ghost pred = other_than(name@);
    proof {
        reveal(Seq::filter);
        assert(ids@.take(0).filter(pred) =~= Seq::<String>::empty());
    }
    while i < ids.len()
        invariant
            i <= ids@.len(),
            pred == other_than(name@),
            out@ == ids@.take(i as int).filter(pred),
        decreases ids@.len() - i,
    {
        proof {
            reveal(Seq::filter);
            assert(ids@.take(i + 1).drop_last() =~= ids@.take(i as int));
            assert(ids@.take(i + 1).last() == ids@[i as int]);
        }
        if !text::same_text(ids[i].as_str(), name) {
            out.push(ids[i].clone());
        }
        i += 1;
    }
    assert(ids@.take(ids@.len() as int) =~= ids@);
    out
}

/// Takes a monitor out of every named area.
pub fn remove_monitor_from_all_sub_screens(config: &mut AppConfig, device_name: &str)
    ensures
        same_but_roles(*old(config), *final(config)),
        final(config).main_monitor_ids == old(config).main_monitor_ids,
        taken_out(old(config).sub_screens@, final(config).sub_screens@, device_name@),
{
    let ghost before = *config;
    let mut i: usize = 0;
    while i < config.sub_screens.len()
        invariant
            i <= config.sub_screens@.len() == before.sub_screens@.len(),
            same_but_roles(before, *config),
            config.main_monitor_ids == before.main_monitor_ids,
            forall|k: int|
                0 <= k < i ==> same_area(
                    before.sub_screens@[k],
                    #[trigger] config.sub_screens@[k],
                    without(before.sub_screens@[k].monitor_ids@, device_name@),
                ),
            forall|k: int|
                i <= k < config.sub_screens@.len() ==> #[trigger] config.sub_screens@[k]
                    == before.sub_screens@[k],
        decreases config.sub_screens@.len() - i,
    {
        let kept = copy_without(&config.sub_screens[i].monitor_ids, device_name);
        config.sub_screens[i].monitor_ids = kept;
        i += 1;
    }
}

proof fn lemma_place(ids: Seq<String>, name: Seq<char>)
    ensures
        place_of(ids, name) is Some <==> monitor_resolution::names(ids, name),
        place_of(ids, name) matches Some(i) ==> 0 <= i < ids.len() && ids[i]@ == name,
{
    let test = is_text(ids, name);
    order::lemma_first_where(ids.len(), test);
    if monitor_resolution::names(ids, name) {
        let i = choose|i: int| 0 <= i < ids.len() && (#[trigger] ids[i])@ == name;
        assert(test(i));
    }
    if let Some(i) = place_of(ids, name) {
        assert(test(i));
        assert(ids[i]@ == name);
    }
}

proof fn lemma_remove_name(ids: Seq<String>, at: int, k: Seq<char>)
    requires
        0 <= at < ids.len(),
        distinct(ids),
    ensures
        distinct(ids.remove(at)),
        monitor_resolution::names(ids.remove(at), k) == (monitor_resolution::names(ids, k) && k
            != ids[at]@),
{
    let after = ids.remove(at);
    assert forall|i: int, j: int| 0 <= i < j < after.len() implies (#[trigger] after[i])@ != (
    #[trigger] after[j])@ by {
        let a = if i < at {
            i
        } else {
            i + 1
        };
        let b = if j < at {
            j
        } else {
            j + 1
        };
        assert(after[i] == ids[a] && after[j] == ids[b]);
    }
    if monitor_resolution::names(after, k) {
        let i = choose|i: int| 0 <= i < after.len() && (#[trigger] after[i])@ == k;
        let a = if i < at {
            i
        } else {
            i + 1
        };
        assert(after[i] == ids[a]);
        assert(ids[a]@ == k);
        assert(a < at ==> ids[a]@ != ids[at]@);
        assert(at < a ==> ids[at]@ != ids[a]@);
    }
    if monitor_resolution::names(ids, k) && k != ids[at]@ {
        let i = choose|i: int| 0 <= i < ids.len() && (#[trigger] ids[i])@ == k;
        let a = if i < at {
            i
        } else {
            i - 1
        };
        assert(after[a] == ids[i]);
    }
}

proof fn lemma_push_name(ids: Seq<String>, name: String, k: Seq<char>)
    ensures
        monitor_resolution::names(ids.push(name), k) == (monitor_resolution::names(ids, k) || k
            == name@),
        distinct(ids) && !monitor_resolution::names(ids, name@) ==> distinct(ids.push(name)),
{
    let after = ids.push(name);
    if monitor_resolution::names(ids, k) {
        let i = choose|i: int| 0 <= i < ids.len() && (#[trigger] ids[i])@ == k;
        assert(after[i]@ == k);
    }
    if k == name@ {
        assert(after[ids.len() as int]@ == k);
    }
    if monitor_resolution::names(after, k) && k != name@ {
        let i = choose|i: int| 0 <= i < after.len() && (#[trigger] after[i])@ == k;
        assert(ids[i]@ == k);
    }
    if distinct(ids) && !monitor_resolution::names(ids, name@) {
        assert forall|i: int, j: int| 0 <= i < j < after.len() implies (#[trigger] after[i])@ != (
        #[trigger] after[j])@ by {
            assert(after[i] == ids[i]);
            if j < ids.len() {
                assert(after[j] == ids[j]);
            }
        }
    }
}

/// What making the selected monitor a main one, or not, comes to.
pub open spec fn main_toggled(
    config: AppConfig,
    state: LayoutStudioState,
    config2: AppConfig,
    state2: LayoutStudioState,
    r: Option<bool>,
) -> bool {
    match state.selected() {
        None => r is None && config2 == config && state2 == state,
        Some(m) => {
            let name = m.device_name@;
            &&& same_but_roles(config, config2)
            &&& match place_of(config.main_monitor_ids@, name) {
                Some(i) => {
                    &&& r == Some(false)
                    &&& config2.main_monitor_ids@ == config.main_monitor_ids@.remove(i)
                    &&& config2.sub_screens == config.sub_screens
                    &&& state2 == state
                },
                None => {
                    &&& r == Some(true)
                    &&& config2.main_monitor_ids@ == config.main_monitor_ids@.push(m.device_name)
                    &&& taken_out(config.sub_screens@, config2.sub_screens@, name)
                    &&& same_but_exclusions(state, state2)
                    &&& marked(
                        state.excluded_overrides@,
                        state2.excluded_overrides@,
                        name,
                        false,
                    )
                },
            }
        },
    }
}

proof fn lemma_main_toggled(
    config: AppConfig,
    state: LayoutStudioState,
    config2: AppConfig,
    state2: LayoutStudioState,
    r: Option<bool>,
)
    requires
        main_toggled(config, state, config2, state2, r),
        roles_exclusive(config, state),
    ensures
        roles_exclusive(config2, state2),
{
    if let Some(m) = state.selected() {
        let name = m.device_name@;
        lemma_place(config.main_monitor_ids@, name);
        match place_of(config.main_monitor_ids@, name) {
            Some(i) => {
                lemma_remove_name(config.main_monitor_ids@, i, name);
                assert forall|k: Seq<char>| #[trigger] one_role(config2, state2, k) by {
                    assert(one_role(config, state, k));
                    lemma_remove_name(config.main_monitor_ids@, i, k);
                }
            },
            None => {
                lemma_push_name(config.main_monitor_ids@, m.device_name, name);
                assert forall|k: Seq<char>| #[trigger] one_role(config2, state2, k) by {
                    assert(one_role(config, state, k));
                    lemma_push_name(config.main_monitor_ids@, m.device_name, k);
                    lemma_taken_out(config.sub_screens@, config2.sub_screens@, name, k);
                    assert(keyed::value_of(state2.excluded_overrides@, k) == if k == name {
                        Some(false)
                    } else {
                        keyed::value_of(state.excluded_overrides@, k)
                    });
                }
            },
        }
    }
}

/// Makes the selected monitor a main one, which takes it out of any other role; or takes that
/// back. Says which of the two it did.
pub fn toggle_main(config: &mut AppConfig, state: &mut LayoutStudioState) -> (r: Option<bool>)
    ensures
        main_toggled(*old(config), *old(state), *final(config), *final(state), r),
        roles_exclusive(*old(config), *old(state)) ==> roles_exclusive(
            *final(config),
            *final(state),
        ),
{
    let ghost config0 = *config;
    let ghost state0 = *state;
    let r = match state.name_of_selected() {
        None => None,
        Some(name) => {
            match find_place(&config.main_monitor_ids, name.as_str()) {
                Some(i) => {
                    config.main_monitor_ids.remove(i);
                    Some(false)
                },
                None => {
                    config.main_monitor_ids.push(name.clone());
                    keyed::put(&mut state.excluded_overrides, name.as_str(), false);
                    remove_monitor_from_all_sub_screens(config, name.as_str());
                    Some(true)
                },
            }
        },
    };
    proof {
        assert(main_toggled(config0, state0, *config, *state, r));
        if roles_exclusive(config0, state0) {
            lemma_main_toggled(config0, state0, *config, *state, r);
        }
    }
    r
}

/// The main monitors without the first mention of a name.
pub open spec fn main_without(ids: Seq<String>, name: Seq<char>) -> Seq<String> {
    match place_of(ids, name) {
        Some(i) => ids.remove(i),
        None => ids,
    }
}

fn drop_main(config: &mut AppConfig, name: &str)
    ensures
        same_but_roles(*old(config), *final(config)),
        final(config).sub_screens == old(config).sub_screens,
        final(config).main_monitor_ids@ == main_without(old(config).main_monitor_ids@, name@),
{
    if let Some(i) = find_place(&config.main_monitor_ids, name) {
        config.main_monitor_ids.remove(i);
    }
}

proof fn lemma_main_without(ids: Seq<String>, name: Seq<char>, k: Seq<char>)
    requires
        distinct(ids),
    ensures
        distinct(main_without(ids, name)),
        monitor_resolution::names(main_without(ids, name), k) == (monitor_resolution::names(ids, k)
            && k != name),
{
    lemma_place(ids, name);
    if let Some(i) = place_of(ids, name) {
        lemma_remove_name(ids, i, k);
    }
}

/// What leaving the selected monitor alone, or not, comes to.
pub open spec fn exclusion_toggled(
    config: AppConfig,
    state: LayoutStudioState,
    config2: AppConfig,
    state2: LayoutStudioState,
    r: Option<bool>,
) -> bool {
    match state.selected_name() {
        None => r is None && config2 == config && state2 == state,
        Some(name) => {
            let out = !left_alone(state.excluded_overrides@, config.monitors@, name);
            &&& r == Some(out)
            &&& same_but_exclusions(state, state2)
            &&& marked(state.excluded_overrides@, state2.excluded_overrides@, name, out)
            &&& same_but_roles(config, config2)
            &&& out ==> {
                &&& config2.main_monitor_ids@ == main_without(config.main_monitor_ids@, name)
                &&& taken_out(config.sub_screens@, config2.sub_screens@, name)
            }
            &&& !out ==> config2 == config
        },
    }
}

proof fn lemma_exclusion_toggled(
    config: AppConfig,
    state: LayoutStudioState,
    config2: AppConfig,
    state2: LayoutStudioState,
    r: Option<bool>,
)
    requires
        exclusion_toggled(config, state, config2, state2, r),
        roles_exclusive(config, state),
    ensures
        roles_exclusive(config2, state2),
{
    if let Some(name) = state.selected_name() {
        let out = !left_alone(state.excluded_overrides@, config.monitors@, name);
        lemma_main_without(config.main_monitor_ids@, name, name);
        assert forall|k: Seq<char>| #[trigger] one_role(config2, state2, k) by {
            assert(one_role(config, state, k));
            assert(keyed::value_of(state2.excluded_overrides@, k) == if k == name {
                Some(out)
            } else {
                keyed::value_of(state.excluded_overrides@, k)
            });
            if out {
                lemma_main_without(config.main_monitor_ids@, name, k);
                lemma_taken_out(config.sub_screens@, config2.sub_screens@, name, k);
            }
        }
    }
}

/// Leaves the selected monitor alone, which takes it out of any other role; or takes that back.
/// Says which of the two it did.
pub fn toggle_excluded(config: &mut AppConfig, state: &mut LayoutStudioState) -> (r: Option<bool>)
    ensures
        exclusion_toggled(*old(config), *old(state), *final(config), *final(state), r),
        roles_exclusive(*old(config), *old(state)) ==> roles_exclusive(
            *final(config),
            *final(state),
        ),
{
    let ghost config0 = *config;
    let ghost state0 = *state;
    let r = match state.name_of_selected() {
        None => None,
        Some(name) => {
            let excluded = !state.excluded_for(config, name.as_str());
            keyed::put(&mut state.excluded_overrides, name.as_str(), excluded);
            if excluded {
                drop_main(config, name.as_str());
                remove_monitor_from_all_sub_screens(config, name.as_str());
            }
            Some(excluded)
        },
    };
    proof {
        assert(exclusion_toggled(config0, state0, *config, *state, r));
        if roles_exclusive(config0, state0) {
            lemma_exclusion_toggled(config0, state0, *config, *state, r);
        }
    }
    r
}

// ---------------------------------------------------------------------------
// Named areas
// ---------------------------------------------------------------------------

/// The selected monitor belongs to the area already.
pub open spec fn is_assigned(subs: Seq<SubScreen>, index: int, name: Seq<char>) -> bool {
    index < subs.len() && monitor_resolution::names(subs[index].monitor_ids@, name)
}

/// The monitors of an area once a monitor was taken out of all and put into one.
pub open spec fn reassigned(before: SubScreen, name: String, here: bool) -> Seq<String> {
    if here {
        without(before.monitor_ids@, name@).push(name)
    } else {
        without(before.monitor_ids@, name@)
    }
}

/// What putting the selected monitor into an area, or taking it out, comes to.
pub open spec fn assignment_toggled(
    config: AppConfig,
    state: LayoutStudioState,
    config2: AppConfig,
    state2: LayoutStudioState,
    index: int,
    r: bool,
) -> bool {
    match state.selected() {
        None => !r && config2 == config && state2 == state,
        Some(m) => {
            let name = m.device_name@;
            let joins = !is_assigned(config.sub_screens@, index, name);
            &&& r
            &&& same_but_roles(config, config2)
            &&& config2.sub_screens@.len() == config.sub_screens@.len()
            &&& forall|i: int|
                0 <= i < config.sub_screens@.len() ==> same_area(
                    config.sub_screens@[i],
                    #[trigger] config2.sub_screens@[i],
                    reassigned(config.sub_screens@[i], m.device_name, joins && i == index),
                )
            &&& joins ==> {
                &&& config2.main_monitor_ids@ == main_without(config.main_monitor_ids@, name)
                &&& same_but_exclusions(state, state2)
                &&& marked(state.excluded_overrides@, state2.excluded_overrides@, name, false)
            }
            &&& !joins ==> config2.main_monitor_ids == config.main_monitor_ids && state2 == state
        },
    }
}

proof fn lemma_assignment_toggled(
    config: AppConfig,
    state: LayoutStudioState,
    config2: AppConfig,
    state2: LayoutStudioState,
    index: int,
    r: bool,
)
    requires
        0 <= index,
        assignment_toggled(config, state, config2, state2, index, r),
        roles_exclusive(config, state),
    ensures
        roles_exclusive(config2, state2),
{
    if let Some(m) = state.selected() {
        let name = m.device_name@;
        let joins = !is_assigned(config.sub_screens@, index, name);
        let before = config.sub_screens@;
        let after = config2.sub_screens@;
        lemma_main_without(config.main_monitor_ids@, name, name);
        assert forall|k: Seq<char>| #[trigger] one_role(config2, state2, k) by {
            assert(one_role(config, state, k));
            lemma_main_without(config.main_monitor_ids@, name, k);
            assert forall|i: int| 0 <= i < before.len() implies monitor_resolution::names(
                (#[trigger] after[i]).monitor_ids@,
                k,
            ) == if k == name {
                joins && i == index
            } else {
                monitor_resolution::names(before[i].monitor_ids@, k)
            } by {
                lemma_without(before[i].monitor_ids@, name, k);
                lemma_push_name(without(before[i].monitor_ids@, name), m.device_name, k);
            }
            if joins {
                assert(keyed::value_of(state2.excluded_overrides@, k) == if k == name {
                    Some(false)
                } else {
                    keyed::value_of(state.excluded_overrides@, k)
                });
            }
            assert(in_one_area(after, k)) by {
                assert forall|i: int, j: int|
                    0 <= i < j < after.len() && monitor_resolution::names(
                        (#[trigger] after[i]).monitor_ids@,
                        k,
                    ) implies !monitor_resolution::names((#[trigger] after[j]).monitor_ids@, k) by {
                    if k != name {
                        assert(monitor_resolution::names(before[i].monitor_ids@, k));
                        assert(!monitor_resolution::names(before[j].monitor_ids@, k));
                    }
                }
            }
            if k != name && in_an_area(after, k) {
                let i = choose|i: int|
                    0 <= i < after.len() && monitor_resolution::names(
                        (#[trigger] after[i]).monitor_ids@,
                        k,
                    );
                assert(monitor_resolution::names(before[i].monitor_ids@, k));
            }
            if k == name && !joins && in_an_area(after, k) {
                let i = choose|i: int|
                    0 <= i < after.len() && monitor_resolution::names(
                        (#[trigger] after[i]).monitor_ids@,
                        k,
                    );
                assert(!monitor_resolution::names(after[i].monitor_ids@, k));
            }
        }
    }
}

/// Puts the selected monitor into an area, which takes it out of any other role and area; or, where
/// it is in that area already, takes it out. Says whether a monitor is selected at all.
pub fn toggle_sub_screen_monitor(
    config: &mut AppConfig,
    state: &mut LayoutStudioState,
    index: usize,
) -> (r: bool)
    ensures
        assignment_toggled(
            *old(config),
            *old(state),
            *final(config),
            *final(state),
            index as int,
            r,
        ),
        roles_exclusive(*old(config), *old(state)) ==> roles_exclusive(
            *final(config),
            *final(state),
        ),
{
    let ghost config0 = *config;
    let ghost state0 = *state;
    let name = match state.name_of_selected() {
        None => {
            return false;
        },
        Some(name) => name,
    };
    let already = index < config.sub_screens.len() && monitor_resolution::is_named(
        config.sub_screens[index].monitor_ids.as_slice(),
        name.as_str(),
    );
    remove_monitor_from_all_sub_screens(config, name.as_str());
    if !already {
        drop_main(config, name.as_str());
        keyed::put(&mut state.excluded_overrides, name.as_str(), false);
        if index < config.sub_screens.len() {
            config.sub_screens[index].monitor_ids.push(name);
        }
    }
    proof {
        assert(assignment_toggled(config0, state0, *config, *state, index as int, true));
        if roles_exclusive(config0, state0) {
            lemma_assignment_toggled(config0, state0, *config, *state, index as int, true);
        }
    }
    true
}

/// Why an area could not be added.
#[derive(Clone, Copy, Debug, PartialEq, Eq, Structural)]
pub enum SubScreenError {
    NameMissing,
    NameTaken,
}

impl SubScreenError {
    pub fn message(&self) -> (r: &'static str)
        ensures
            r@ == match *self {
                SubScreenError::NameMissing => "サブ画面の名前を入力してください。"@,
                SubScreenError::NameTaken => "同じ名前のサブ画面が既にあります。"@,
            },
    {
        match self {
            SubScreenError::NameMissing => "サブ画面の名前を入力してください。",
            SubScreenError::NameTaken => "同じ名前のサブ画面が既にあります。",
        }
    }
}

pub open spec fn is_called(subs: Seq<SubScreen>, name: Seq<char>) -> bool {
    exists|i: int| 0 <= i < subs.len() && (#[trigger] subs[i]).name@ == name
}

/// Nothing but the named areas differs.
pub open spec fn same_but_areas(before: AppConfig, after: AppConfig) -> bool {
    &&& after.monitors == before.monitors
    &&& after.main_monitor_ids == before.main_monitor_ids
    &&& after.fixed_slots == before.fixed_slots
    &&& after.worksets == before.worksets
    &&& after.settings == before.settings
}

fn name_is_taken(subs: &Vec<SubScreen>, name: &str) -> (r: bool)
    ensures
        r == is_called(subs@, name@),
{
    let mut i: usize = 0;
    while i < subs.len()
        invariant
            i <= subs@.len(),
            forall|k: int| 0 <= k < i ==> (#[trigger] subs@[k]).name@ != name@,
        decreases subs@.len() - i,
    {
        if text::same_text(subs[i].name.as_str(), name) {
            return true;
        }
        i += 1;
    }
    false
}

/// Adds an area without monitors, under a name that no other has. Hands back what to say.
pub fn add_sub_screen(config: &mut AppConfig, raw_name: &str) -> (r: Result<
    String,
    SubScreenError,
>)
    ensures
        ({
            let name = text::trimmed(raw_name@);
            match r {
                Err(SubScreenError::NameMissing) => name.len() == 0 && *final(config) == *old(
                    config,
                ),
                Err(SubScreenError::NameTaken) => {
                    &&& name.len() > 0
                    &&& is_called(old(config).sub_screens@, name)
                    &&& *final(config) == *old(config)
                },
                Ok(message) => {
                    let added = final(config).sub_screens@.last();
                    &&& name.len() > 0
                    &&& !is_called(old(config).sub_screens@, name)
                    &&& same_but_areas(*old(config), *final(config))
                    &&& final(config).sub_screens@ == old(config).sub_screens@.push(added)
                    &&& added.name@ == name
                    &&& added.monitor_ids@.len() == 0
                    &&& added.split == AutoSplit::One
                    &&& added.cell_index == 0
                    &&& !added.fullscreen
                    &&& message@ == "サブ画面「"@ + name
                        + "」を追加しました。モニターを割り当ててください。"@
                },
            }
        }),
{
    let name = text::trim_text(raw_name);
    if text::is_empty_text(name.as_str()) {
        return Err(SubScreenError::NameMissing);
    }
    if name_is_taken(&config.sub_screens, name.as_str()) {
        return Err(SubScreenError::NameTaken);
    }
    let message = text::joined3(
        "サブ画面「",
        name.as_str(),
        "」を追加しました。モニターを割り当ててください。",
    );
    let added = SubScreen {
        id: ids::random_uuid(),
        name,
        monitor_ids: Vec::new(),
        split: AutoSplit::One,
        cell_index: 0,
        fullscreen: false,
    };
    config.sub_screens.push(added);
    Ok(message)
}

/// A set that parks in the area parks as room allows instead.
pub open spec fn released(w: Workset, sub_screen_id: Uuid) -> Workset {
    if w.parking_policy == (ParkingPolicy::SubScreen { sub_screen_id }) {
        Workset { parking_policy: ParkingPolicy::Auto, ..w }
    } else {
        w
    }
}

pub open spec fn all_released(worksets: Seq<Workset>, sub_screen_id: Uuid) -> Seq<Workset> {
    worksets.map_values(|w: Workset| released(w, sub_screen_id))
}

/// Removes an area. Sets that parked there park as room allows. Hands back what to say, or nothing
/// where there is no such area.
pub fn delete_sub_screen(config: &mut AppConfig, index: usize) -> (r: Option<String>)
    ensures
        index >= old(config).sub_screens@.len() ==> r is None && *final(config) == *old(config),
        index < old(config).sub_screens@.len() ==> {
            let removed = old(config).sub_screens@[index as int];
            &&& r matches Some(message)
            &&& message@ == "サブ画面「"@ + removed.name@ + "」を削除しました。"@
            &&& final(config).sub_screens@ == old(config).sub_screens@.remove(index as int)
            &&& final(config).worksets@ == all_released(old(config).worksets@, removed.id)
            &&& final(config).monitors == old(config).monitors
            &&& final(config).main_monitor_ids == old(config).main_monitor_ids
            &&& final(config).fixed_slots == old(config).fixed_slots
            &&& final(config).settings == old(config).settings
        },
{
    if index >= config.sub_screens.len() {
        return None;
    }
    let ghost config0 = *config;
    let removed = config.sub_screens.remove(index);
    let n: usize = config.worksets.len();
    let mut i: usize = 0;
    while i < n
        invariant
            i <= n == config.worksets@.len() == config0.worksets@.len(),
            removed == config0.sub_screens@[index as int],
            config.sub_screens@ == config0.sub_screens@.remove(index as int),
            config.monitors == config0.monitors,
            config.main_monitor_ids == config0.main_monitor_ids,
            config.fixed_slots == config0.fixed_slots,
            config.settings == config0.settings,
            forall|k: int|
                0 <= k < i ==> #[trigger] config.worksets@[k] == released(
                    config0.worksets@[k],
                    removed.id,
                ),
            forall|k: int|
                i <= k < n ==> #[trigger] config.worksets@[k] == config0.worksets@[k],
        decreases n - i,
    {
        if config.worksets[i].parking_policy == (ParkingPolicy::SubScreen {
            sub_screen_id: removed.id,
        }) {
            config.worksets[i].parking_policy = ParkingPolicy::Auto;
        }
        i += 1;
    }
    assert(config.worksets@ =~= all_released(config0.worksets@, removed.id));
    Some(text::joined3("サブ画面「", removed.name.as_str(), "」を削除しました。"))
}

/// Once an area is gone, no set parks in it any more.
pub proof fn law_no_set_parks_in_a_removed_area(worksets: Seq<Workset>, removed: Uuid)
    ensures
        forall|i: int|
            0 <= i < worksets.len() ==> (#[trigger] all_released(
                worksets,
                removed,
            )[i]).parking_policy != (ParkingPolicy::SubScreen { sub_screen_id: removed }),
{
}

/// Moves an area on to the next region. Where there is no such area nothing changes.
pub fn cycle_sub_screen_region(config: &mut AppConfig, index: usize)
    ensures
        same_but_areas(*old(config), *final(config)),
        index >= old(config).sub_screens@.len() ==> final(config).sub_screens
            == old(config).sub_screens,
        index < old(config).sub_screens@.len() ==> {
            let before = old(config).sub_screens@[index as int];
            let (split, cell_index) = next_region(before.split, before.cell_index as nat);
            final(config).sub_screens@ == old(config).sub_screens@.update(
                index as int,
                SubScreen { split, cell_index, ..before },
            )
        },
{
    if index < config.sub_screens.len() {
        let (split, cell) = next_sub_region(
            config.sub_screens[index].split,
            config.sub_screens[index].cell_index,
        );
        let ghost before = config.sub_screens@;
        config.sub_screens[index].split = split;
        config.sub_screens[index].cell_index = cell;
        assert(config.sub_screens@ =~= before.update(
            index as int,
            SubScreen { split, cell_index: cell, ..before[index as int] },
        ));
    }
}

/// Has an area filled by a lone set, or not. Where there is no such area nothing changes.
pub fn toggle_sub_screen_fullscreen(config: &mut AppConfig, index: usize)
    ensures
        same_but_areas(*old(config), *final(config)),
        index >= old(config).sub_screens@.len() ==> final(config).sub_screens
            == old(config).sub_screens,
        index < old(config).sub_screens@.len() ==> final(config).sub_screens@
            == old(config).sub_screens@.update(
            index as int,
            SubScreen {
                fullscreen: !old(config).sub_screens@[index as int].fullscreen,
                ..old(config).sub_screens@[index as int]
            },
        ),
{
    if index < config.sub_screens.len() {
        let ghost before = config.sub_screens@;
        let fullscreen = !config.sub_screens[index].fullscreen;
        config.sub_screens[index].fullscreen = fullscreen;
        assert(config.sub_screens@ =~= before.update(
            index as int,
            SubScreen { fullscreen, ..before[index as int] },
        ));
    }
}

proof fn lemma_areas_mentioned(before: Seq<SubScreen>, after: Seq<SubScreen>, k: Seq<char>)
    requires
        forall|i: int|
            0 <= i < after.len() ==> (exists|j: int|
                0 <= j < before.len() && (#[trigger] before[j]).monitor_ids
                    == after[i].monitor_ids) || (#[trigger] after[i]).monitor_ids@.len() == 0,
    ensures
        in_an_area(after, k) ==> in_an_area(before, k),
{
    if in_an_area(after, k) {
        let i = choose|i: int|
            0 <= i < after.len() && monitor_resolution::names((#[trigger] after[i]).monitor_ids@, k);
        let j = choose|j: int|
            0 <= j < before.len() && (#[trigger] before[j]).monitor_ids == after[i].monitor_ids;
        assert(monitor_resolution::names(before[j].monitor_ids@, k));
    }
}

/// Adding an area without monitors, or removing one, leaves every monitor with one role at most.
pub proof fn law_areas_come_and_go(
    config: AppConfig,
    state: LayoutStudioState,
    more: AppConfig,
    less: AppConfig,
    index: int,
)
    requires
        roles_exclusive(config, state),
        same_but_areas(config, more),
        more.sub_screens@.len() > 0,
        more.sub_screens@.drop_last() == config.sub_screens@,
        more.sub_screens@.last().monitor_ids@.len() == 0,
        less.monitors == config.monitors,
        less.main_monitor_ids == config.main_monitor_ids,
        0 <= index < config.sub_screens@.len(),
        less.sub_screens@ == config.sub_screens@.remove(index),
    ensures
        roles_exclusive(more, state),
        roles_exclusive(less, state),
{
    let before = config.sub_screens@;
    let grown = more.sub_screens@;
    let shrunk = less.sub_screens@;
    assert forall|k: Seq<char>| #[trigger] one_role(more, state, k) by {
        assert(one_role(config, state, k));
        assert forall|i: int| 0 <= i < grown.len() implies (exists|j: int|
            0 <= j < before.len() && (#[trigger] before[j]).monitor_ids == grown[i].monitor_ids)
            || (#[trigger] grown[i]).monitor_ids@.len() == 0 by {
            if i < before.len() {
                assert(before[i] == grown[i]);
            }
        }
        lemma_areas_mentioned(before, grown, k);
        assert forall|i: int, j: int|
            0 <= i < j < grown.len() && monitor_resolution::names(
                (#[trigger] grown[i]).monitor_ids@,
                k,
            ) implies !monitor_resolution::names((#[trigger] grown[j]).monitor_ids@, k) by {
            if j < before.len() {
                assert(before[i] == grown[i] && before[j] == grown[j]);
            }
        }
    }
    assert forall|k: Seq<char>| #[trigger] one_role(less, state, k) by {
        assert(one_role(config, state, k));
        assert forall|i: int| 0 <= i < shrunk.len() implies (exists|j: int|
            0 <= j < before.len() && (#[trigger] before[j]).monitor_ids == shrunk[i].monitor_ids)
            || (#[trigger] shrunk[i]).monitor_ids@.len() == 0 by {
            let j = if i < index {
                i
            } else {
                i + 1
            };
            assert(before[j] == shrunk[i]);
        }
        lemma_areas_mentioned(before, shrunk, k);
        assert forall|i: int, j: int|
            0 <= i < j < shrunk.len() && monitor_resolution::names(
                (#[trigger] shrunk[i]).monitor_ids@,
                k,
            ) implies !monitor_resolution::names((#[trigger] shrunk[j]).monitor_ids@, k) by {
            let a = if i < index {
                i
            } else {
                i + 1
            };
            let b = if j < index {
                j
            } else {
                j + 1
            };
            assert(before[a] == shrunk[i] && before[b] == shrunk[j]);
        }
    }
}

// ---------------------------------------------------------------------------
// Emptying the main screen, and saving
// ---------------------------------------------------------------------------

/// The bounds of the main monitors that are connected, in the order in which they are listed.
pub open spec fn main_bounds(monitors: Seq<MonitorInfo>, main_ids: Seq<String>) -> Seq<PixelRect>
    decreases main_ids.len(),
{
    if main_ids.len() == 0 {
        Seq::empty()
    } else {
        let before = main_bounds(monitors, main_ids.drop_last());
        match monitor_resolution::live_monitor(monitors, main_ids.last()@) {
            Some(m) => before.push(m.bounds_px),
            None => before,
        }
    }
}

pub fn resolve_main_monitor_bounds(monitors: &[MonitorInfo], main_ids: &[String]) -> (r: Vec<
    PixelRect,
>)
    ensures
        r@ == main_bounds(monitors@, main_ids@),
{
    let mut out: Vec<PixelRect> = Vec::new();
    let mut i: usize = 0;
    while i < main_ids.len()
        invariant
            i <= main_ids@.len(),
            out@ == main_bounds(monitors@, main_ids@.take(i as int)),
        decreases main_ids@.len() - i,
    {
        proof {
            assert(main_ids@.take(i + 1).drop_last() =~= main_ids@.take(i as int));
            assert(main_ids@.take(i + 1).last() == main_ids@[i as int]);
        }
        if let Some(m) = monitor_resolution::find_live_monitor_by_stable_id(
            monitors,
            main_ids[i].as_str(),
        ) {
            out.push(m.bounds_px);
        }
        i += 1;
    }
    assert(main_ids@.take(main_ids@.len() as int) =~= main_ids@);
    out
}

/// The live windows whose centre lies on a main monitor.
pub open spec fn windows_on_main(
    windows: Seq<TopLevelWindow>,
    monitors: Seq<MonitorInfo>,
    main_ids: Seq<String>,
) -> Seq<TopLevelWindow> {
    windows.filter(
        |w: TopLevelWindow| layout_service::stands_on(w, main_bounds(monitors, main_ids)),
    )
}

/// What emptying the main screen comes to before anything is moved.
#[derive(Debug)]
pub enum EmptyRequest {
    /// There are no main monitors yet.
    NoMainScreen,
    /// No window stands on them.
    NothingThere,
    /// So many windows stay where they are, as the user has set.
    LeftInPlace(usize),
    /// The user is asked about these.
    Ask(Vec<TopLevelWindow>),
}

/// Looks for windows on the main screen and decides what to do about them.
pub fn request_empty_main_screen(
    config: &AppConfig,
    monitors: &[MonitorInfo],
    windows: &[TopLevelWindow],
) -> (r: EmptyRequest)
    ensures
        ({
            let found = windows_on_main(windows@, monitors@, config.main_monitor_ids@);
            match r {
                EmptyRequest::NoMainScreen => config.main_monitor_ids@.len() == 0,
                EmptyRequest::NothingThere => config.main_monitor_ids@.len() > 0 && found.len()
                    == 0,
                EmptyRequest::LeftInPlace(n) => {
                    &&& config.main_monitor_ids@.len() > 0
                    &&& found.len() > 0
                    &&& config.settings.unknown_window_policy == UnknownWindowPolicy::LeaveInPlace
                    &&& n == found.len()
                },
                EmptyRequest::Ask(candidates) => {
                    &&& config.main_monitor_ids@.len() > 0
                    &&& found.len() > 0
                    &&& config.settings.unknown_window_policy == UnknownWindowPolicy::Ask
                    &&& candidates@ == found
                },
            }
        }),
{
    if config.main_monitor_ids.len() == 0 {
        return EmptyRequest::NoMainScreen;
    }
    let bounds = resolve_main_monitor_bounds(monitors, config.main_monitor_ids.as_slice());
    let candidates = layout_service::find_windows_on_main_screen(windows, bounds.as_slice());
    assert(candidates@ == windows_on_main(windows@, monitors@, config.main_monitor_ids@));
    if candidates.len() == 0 {
        return EmptyRequest::NothingThere;
    }
    match config.settings.unknown_window_policy {
        UnknownWindowPolicy::LeaveInPlace => EmptyRequest::LeftInPlace(candidates.len()),
        UnknownWindowPolicy::Ask => EmptyRequest::Ask(candidates),
    }
}

impl EmptyRequest {
    pub open spec fn says(self) -> Seq<char> {
        match self {
            EmptyRequest::NoMainScreen =>
                "メイン画面が未設定です。先にモニターを選択して「メイン画面に登録する」を押してください。"@,
            EmptyRequest::NothingThere => "メイン画面に対象ウィンドウはありませんでした。"@,
            EmptyRequest::LeftInPlace(n) => text::decimal(n as nat)
                + "個の未登録ウィンドウがありますが、設定方針によりそのままにしました。"@,
            EmptyRequest::Ask(_) => "最小化するウィンドウを確認してください。"@,
        }
    }

    pub fn message(&self) -> (r: String)
        ensures
            r@ == self.says(),
    {
        match self {
            EmptyRequest::NoMainScreen => text::owned(
                "メイン画面が未設定です。先にモニターを選択して「メイン画面に登録する」を押してください。",
            ),
            EmptyRequest::NothingThere => text::owned(
                "メイン画面に対象ウィンドウはありませんでした。",
            ),
            EmptyRequest::LeftInPlace(n) => {
                let number = text::decimal_text(*n as u64);
                text::joined2(
                    number.as_str(),
                    "個の未登録ウィンドウがありますが、設定方針によりそのままにしました。",
                )
            },
            EmptyRequest::Ask(_) => text::owned("最小化するウィンドウを確認してください。"),
        }
    }

    /// Whether the message is a warning.
    pub fn is_warning(&self) -> (r: bool)
        ensures
            r == (self is NoMainScreen),
    {
        match self {
            EmptyRequest::NoMainScreen => true,
            _ => false,
        }
    }
}

/// What a window's row is called: the file name of its program, or else its class.
pub open spec fn program_label(window: TopLevelWindow) -> Seq<char> {
    match window.executable_path {
        Some(path) => match winpath::file_name_of(path@) {
            Some(name) => name,
            None => window.window_class@,
        },
        None => window.window_class@,
    }
}

pub fn candidate_program(window: &TopLevelWindow) -> (r: String)
    ensures
        r@ == program_label(*window),
{
    let name = match &window.executable_path {
        Some(path) => winpath::file_name(path.as_str()),
        None => None,
    };
    match name {
        Some(name) => name,
        None => window.window_class.clone(),
    }
}

/// A monitor in the form in which it is saved, with the edits made to it.
pub open spec fn saved_form(
    m: MonitorInfo,
    state: LayoutStudioState,
    saved: Seq<SavedMonitor>,
) -> SavedMonitor {
    SavedMonitor {
        stable_id: m.device_name,
        device_name: m.device_name,
        device_path: None,
        friendly_name: None,
        bounds_px: m.bounds_px,
        work_area_px: m.work_area_px,
        dpi_x: m.dpi_x,
        dpi_y: m.dpi_y,
        auto_split: split_of(state.auto_splits@, saved, m.device_name@),
        excluded: left_alone(state.excluded_overrides@, saved, m.device_name@),
    }
}

/// Takes the monitors as they are connected, with the edits made, into the configuration.
pub fn apply_layout(config: &mut AppConfig, state: &LayoutStudioState)
    ensures
        final(config).monitors@ == Seq::new(
            state.monitors@.len(),
            |i: int| saved_form(state.monitors@[i], *state, old(config).monitors@),
        ),
        final(config).main_monitor_ids == old(config).main_monitor_ids,
        final(config).sub_screens == old(config).sub_screens,
        final(config).fixed_slots == old(config).fixed_slots,
        final(config).worksets == old(config).worksets,
        final(config).settings == old(config).settings,
{
    let ghost want = Seq::new(
        state.monitors@.len(),
        |i: int| saved_form(state.monitors@[i], *state, config.monitors@),
    );
    let mut out: Vec<SavedMonitor> = Vec::new();
    let mut i: usize = 0;
    while i < state.monitors.len()
        invariant
            i <= state.monitors@.len(),
            want == Seq::new(
                state.monitors@.len(),
                |i: int| saved_form(state.monitors@[i], *state, config.monitors@),
            ),
            out@ == want.take(i as int),
        decreases state.monitors@.len() - i,
    {
        let m = &state.monitors[i];
        let auto_split = state.auto_split_for(config, m.device_name.as_str());
        let excluded = state.excluded_for(config, m.device_name.as_str());
        let saved = SavedMonitor {
            stable_id: m.device_name.clone(),
            device_name: m.device_name.clone(),
            device_path: None,
            friendly_name: None,
            bounds_px: m.bounds_px,
            work_area_px: m.work_area_px,
            dpi_x: m.dpi_x,
            dpi_y: m.dpi_y,
            auto_split,
            excluded,
        };
        assert(saved == want[i as int]);
        out.push(saved);
        assert(out@ =~= want.take(i + 1));
        i += 1;
    }
    assert(out@ =~= want);
    config.monitors = out;
}

/// What was edited is what is saved: afterwards the saved monitors alone say of every connected
/// monitor what the edits said of it, provided that no two of them have the same name.
pub proof fn law_saving_keeps_the_edits(
    state: LayoutStudioState,
    saved: Seq<SavedMonitor>,
    fresh: Seq<SavedMonitor>,
    i: int,
)
    requires
        0 <= i < state.monitors@.len(),
        forall|a: int, b: int|
            0 <= a < b < state.monitors@.len() ==> (#[trigger] state.monitors@[a]).device_name@ != (
            #[trigger] state.monitors@[b]).device_name@,
        fresh == Seq::new(
            state.monitors@.len(),
            |i: int| saved_form(state.monitors@[i], state, saved),
        ),
    ensures
        ({
            let name = state.monitors@[i].device_name@;
            let none = Seq::<(String, Option<AutoSplit>)>::empty();
            &&& split_of(none, fresh, name) == split_of(state.auto_splits@, saved, name)
            &&& left_alone(Seq::<(String, bool)>::empty(), fresh, name) == left_alone(
                state.excluded_overrides@,
                saved,
                name,
            )
        }),
{
    let name = state.monitors@[i].device_name@;
    let test = is_saved_as(fresh, name);
    assert(test(i));
    assert forall|k: int| 0 <= k < i implies !#[trigger] test(k) by {
        assert(state.monitors@[k].device_name@ != name);
    }
    order::lemma_first_where_some(fresh.len(), test, i);
}

/// Making the selected monitor a main one, or not, turns that one role of that one monitor round and
/// says so. A monitor that becomes a main one is left alone no more and is in no area; every other
/// monitor keeps its roles.
pub proof fn law_main_role_is_turned_round(
    config: AppConfig,
    state: LayoutStudioState,
    config2: AppConfig,
    state2: LayoutStudioState,
    r: Option<bool>,
    m: MonitorInfo,
    k: Seq<char>,
)
    requires
        main_toggled(config, state, config2, state2, r),
        distinct(config.main_monitor_ids@),
        state.selected() == Some(m),
    ensures
        ({
            let name = m.device_name@;
            let was = monitor_resolution::names(config.main_monitor_ids@, name);
            &&& r == Some(!was)
            &&& monitor_resolution::names(config2.main_monitor_ids@, name) == !was
            &&& !was ==> !in_an_area(config2.sub_screens@, name) && !left_alone(
                state2.excluded_overrides@,
                config2.monitors@,
                name,
            )
            &&& k != name ==> {
                &&& monitor_resolution::names(config2.main_monitor_ids@, k)
                    == monitor_resolution::names(config.main_monitor_ids@, k)
                &&& in_an_area(config2.sub_screens@, k) == in_an_area(config.sub_screens@, k)
                &&& left_alone(state2.excluded_overrides@, config2.monitors@, k) == left_alone(
                    state.excluded_overrides@,
                    config.monitors@,
                    k,
                )
            }
        }),
{
    let name = m.device_name@;
    lemma_place(config.main_monitor_ids@, name);
    match place_of(config.main_monitor_ids@, name) {
        Some(i) => {
            lemma_remove_name(config.main_monitor_ids@, i, name);
            lemma_remove_name(config.main_monitor_ids@, i, k);
        },
        None => {
            lemma_push_name(config.main_monitor_ids@, m.device_name, name);
            lemma_push_name(config.main_monitor_ids@, m.device_name, k);
            lemma_taken_out(config.sub_screens@, config2.sub_screens@, name, k);
            assert(keyed::value_of(state2.excluded_overrides@, name) == Some(false));
            assert(k != name ==> keyed::value_of(state2.excluded_overrides@, k)
                == keyed::value_of(state.excluded_overrides@, k));
        },
    }
}

/// Leaving the selected monitor alone, or not, turns that one role of that one monitor round and says
/// so. A monitor that is left alone is no main one and in no area; every other monitor keeps its
/// roles.
pub proof fn law_exclusion_is_turned_round(
    config: AppConfig,
    state: LayoutStudioState,
    config2: AppConfig,
    state2: LayoutStudioState,
    r: Option<bool>,
    name: Seq<char>,
    k: Seq<char>,
)
    requires
        exclusion_toggled(config, state, config2, state2, r),
        distinct(config.main_monitor_ids@),
        state.selected_name() == Some(name),
    ensures
        ({
            let was = left_alone(state.excluded_overrides@, config.monitors@, name);
            &&& r == Some(!was)
            &&& left_alone(state2.excluded_overrides@, config2.monitors@, name) == !was
            &&& !was ==> !in_an_area(config2.sub_screens@, name) && !monitor_resolution::names(
                config2.main_monitor_ids@,
                name,
            )
            &&& k != name ==> {
                &&& monitor_resolution::names(config2.main_monitor_ids@, k)
                    == monitor_resolution::names(config.main_monitor_ids@, k)
                &&& in_an_area(config2.sub_screens@, k) == in_an_area(config.sub_screens@, k)
                &&& left_alone(state2.excluded_overrides@, config2.monitors@, k) == left_alone(
                    state.excluded_overrides@,
                    config.monitors@,
                    k,
                )
            }
        }),
{
    let was = left_alone(state.excluded_overrides@, config.monitors@, name);
    assert(keyed::value_of(state2.excluded_overrides@, name) == Some(!was));
    assert(k != name ==> keyed::value_of(state2.excluded_overrides@, k) == keyed::value_of(
        state.excluded_overrides@,
        k,
    ));
    if !was {
        lemma_main_without(config.main_monitor_ids@, name, name);
        lemma_main_without(config.main_monitor_ids@, name, k);
        lemma_taken_out(config.sub_screens@, config2.sub_screens@, name, k);
    }
}

/// Putting the selected monitor into an area, or taking it out, turns round whether it is there. It
/// is in no other area afterwards, and where it was put in, it is neither a main one nor left alone.
/// Every other monitor stays in its areas.
pub proof fn law_area_membership_is_turned_round(
    config: AppConfig,
    state: LayoutStudioState,
    config2: AppConfig,
    state2: LayoutStudioState,
    index: int,
    r: bool,
    m: MonitorInfo,
    i: int,
    k: Seq<char>,
)
    requires
        assignment_toggled(config, state, config2, state2, index, r),
        distinct(config.main_monitor_ids@),
        state.selected() == Some(m),
        0 <= index < config.sub_screens@.len(),
        0 <= i < config.sub_screens@.len(),
    ensures
        ({
            let name = m.device_name@;
            let was = monitor_resolution::names(config.sub_screens@[index].monitor_ids@, name);
            let now = config2.sub_screens@[i];
            &&& config2.sub_screens@.len() == config.sub_screens@.len()
            &&& now.id == config.sub_screens@[i].id && now.name == config.sub_screens@[i].name
            &&& monitor_resolution::names(now.monitor_ids@, name) == (i == index && !was)
            &&& !was ==> !monitor_resolution::names(config2.main_monitor_ids@, name) && !left_alone(
                state2.excluded_overrides@,
                config2.monitors@,
                name,
            )
            &&& k != name ==> {
                &&& monitor_resolution::names(now.monitor_ids@, k) == monitor_resolution::names(
                    config.sub_screens@[i].monitor_ids@,
                    k,
                )
                &&& monitor_resolution::names(config2.main_monitor_ids@, k)
                    == monitor_resolution::names(config.main_monitor_ids@, k)
            }
        }),
{
    let name = m.device_name@;
    let was = monitor_resolution::names(config.sub_screens@[index].monitor_ids@, name);
    let before = config.sub_screens@[i].monitor_ids@;
    assert(is_assigned(config.sub_screens@, index, name) == was);
    assert(same_area(
        config.sub_screens@[i],
        config2.sub_screens@[i],
        reassigned(config.sub_screens@[i], m.device_name, !was && i == index),
    ));
    lemma_without(before, name, name);
    lemma_without(before, name, k);
    lemma_push_name(without(before, name), m.device_name, name);
    lemma_push_name(without(before, name), m.device_name, k);
    if !was {
        lemma_main_without(config.main_monitor_ids@, name, name);
        lemma_main_without(config.main_monitor_ids@, name, k);
        assert(keyed::value_of(state2.excluded_overrides@, name) == Some(false));
    }
}

proof fn lemma_main_bounds(monitors: Seq<MonitorInfo>, main_ids: Seq<String>, k: int, i: int)
    requires
        0 <= i < main_ids.len(),
        0 <= k < monitors.len(),
        main_ids[i]@ == monitors[k].device_name@,
        forall|a: int, b: int|
            0 <= a < b < monitors.len() ==> (#[trigger] monitors[a]).device_name@ != (
            #[trigger] monitors[b]).device_name@,
    ensures
        main_bounds(monitors, main_ids).contains(monitors[k].bounds_px),
    decreases main_ids.len(),
{
    let rest = main_ids.drop_last();
    let now = main_bounds(monitors, main_ids);
    if i < rest.len() {
        assert(rest[i] == main_ids[i]);
        lemma_main_bounds(monitors, rest, k, i);
        let before = main_bounds(monitors, rest);
        let j = choose|j: int| 0 <= j < before.len() && before[j] == monitors[k].bounds_px;
        assert(now[j] == before[j]);
    } else {
        monitor_resolution::law_monitor_is_found_by_its_name(monitors, k);
        assert(now[now.len() - 1] == monitors[k].bounds_px);
    }
}

/// A window whose middle lies on a connected main monitor is on the main screen.
pub proof fn law_windows_on_main_monitors_are_found(
    windows: Seq<TopLevelWindow>,
    monitors: Seq<MonitorInfo>,
    main_ids: Seq<String>,
    w: int,
    k: int,
    i: int,
)
    requires
        0 <= w < windows.len(),
        0 <= k < monitors.len(),
        0 <= i < main_ids.len(),
        main_ids[i]@ == monitors[k].device_name@,
        forall|a: int, b: int|
            0 <= a < b < monitors.len() ==> (#[trigger] monitors[a]).device_name@ != (
            #[trigger] monitors[b]).device_name@,
        monitors[k].bounds_px.covers(windows[w].rect_px.mid_x(), windows[w].rect_px.mid_y()),
    ensures
        windows_on_main(windows, monitors, main_ids).contains(windows[w]),
{
    lemma_main_bounds(monitors, main_ids, k, i);
    let b = main_bounds(monitors, main_ids);
    let j = choose|j: int| 0 <= j < b.len() && b[j] == monitors[k].bounds_px;
    assert(b[j].covers(windows[w].rect_px.mid_x(), windows[w].rect_px.mid_y()));
    let test = |w: TopLevelWindow| layout_service::stands_on(w, main_bounds(monitors, main_ids));
    assert(test(windows[w]));
    assert(windows.contains(windows[w]));
    assert(windows.filter(test).contains(windows[w]));
}

proof fn lemma_main_bounds_are_of_main(monitors: Seq<MonitorInfo>, main_ids: Seq<String>, j: int)
    requires
        0 <= j < main_bounds(monitors, main_ids).len(),
    ensures
        exists|k: int|
            0 <= k < monitors.len() && monitor_resolution::names(
                main_ids,
                (#[trigger] monitors[k]).device_name@,
            ) && monitors[k].bounds_px == main_bounds(monitors, main_ids)[j],
    decreases main_ids.len(),
{
    let rest = main_ids.drop_last();
    let before = main_bounds(monitors, rest);
    if j < before.len() {
        lemma_main_bounds_are_of_main(monitors, rest, j);
        let k = choose|k: int|
            0 <= k < monitors.len() && monitor_resolution::names(
                rest,
                (#[trigger] monitors[k]).device_name@,
            ) && monitors[k].bounds_px == before[j];
        let i = choose|i: int|
            0 <= i < rest.len() && (#[trigger] rest[i])@ == monitors[k].device_name@;
        assert(main_ids[i]@ == monitors[k].device_name@);
    } else {
        let id = main_ids[main_ids.len() - 1]@;
        monitor_resolution::lemma_live_monitor(monitors, id);
        let m = monitor_resolution::live_monitor(monitors, id)->0;
        let k = choose|k: int| 0 <= k < monitors.len() && monitors[k] == m;
        assert(monitor_resolution::names(main_ids, monitors[k].device_name@));
    }
}

/// Every window that counts as on the main screen is a live one, and its middle lies on a connected
/// monitor that the main screen names.
pub proof fn law_only_windows_on_main_monitors_are_found(
    windows: Seq<TopLevelWindow>,
    monitors: Seq<MonitorInfo>,
    main_ids: Seq<String>,
    n: int,
)
    requires
        0 <= n < windows_on_main(windows, monitors, main_ids).len(),
    ensures
        ({
            let w = windows_on_main(windows, monitors, main_ids)[n];
            &&& windows.contains(w)
            &&& exists|k: int|
                0 <= k < monitors.len() && monitor_resolution::names(
                    main_ids,
                    (#[trigger] monitors[k]).device_name@,
                ) && monitors[k].bounds_px.covers(w.rect_px.mid_x(), w.rect_px.mid_y())
        }),
{
    let test = |w: TopLevelWindow| layout_service::stands_on(w, main_bounds(monitors, main_ids));
    order::lemma_filter_members(windows, test);
    let w = windows_on_main(windows, monitors, main_ids)[n];
    assert(w == windows.filter(test)[n]);
    assert(test(w));
    let b = main_bounds(monitors, main_ids);
    let j = choose|j: int|
        0 <= j < b.len() && (#[trigger] b[j]).covers(w.rect_px.mid_x(), w.rect_px.mid_y());
    lemma_main_bounds_are_of_main(monitors, main_ids, j);
}

/// A monitor is saved under the name that it is connected by, at the place and with the scale that it
/// has now.
pub proof fn law_monitors_are_saved_as_they_are(
    m: MonitorInfo,
    state: LayoutStudioState,
    saved: Seq<SavedMonitor>,
)
    ensures
        ({
            let s = saved_form(m, state, saved);
            &&& s.stable_id@ == m.device_name@ && s.device_name@ == m.device_name@
            &&& s.bounds_px == m.bounds_px && s.work_area_px == m.work_area_px
            &&& s.dpi_x == m.dpi_x && s.dpi_y == m.dpi_y
        }),
{
}

} // verus!
