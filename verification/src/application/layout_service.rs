//! Splitting a work area into cells, as pixels and as fractions, and finding what is on the
//! main screen.

use vstd::prelude::*;

use crate::application::parking_cells;
use crate::domain::monitor::AutoSplit;
use crate::domain::placement;
use crate::domain::placement::{NormalizedRect, PixelRect, SavedShowState};
use crate::windowing::enumerate::TopLevelWindow;

verus! {

/// The split of a monitor that is left to its size.
pub open spec fn split_by_size(area: PixelRect) -> AutoSplit {
    if area.width >= 3400 && area.height >= 1700 {
        AutoSplit::FourGrid
    } else if area.width >= 2200 && area.width > area.height {
        AutoSplit::TwoColumns
    } else {
        AutoSplit::One
    }
}

/// Picks the split of a monitor that is left to its size: four cells on a 4K-class work area,
/// two columns on a wide one, and the whole of anything smaller.
pub fn resolve_auto_split(work_area: PixelRect) -> (r: AutoSplit)
    ensures
        r == split_by_size(work_area),
{
    if work_area.width >= 3400 && work_area.height >= 1700 {
        AutoSplit::FourGrid
    } else if work_area.width >= 2200 && work_area.width > work_area.height {
        AutoSplit::TwoColumns
    } else {
        AutoSplit::One
    }
}

/// The cells of a split, in reading order.
pub open spec fn split_cells(area: PixelRect, split: AutoSplit) -> Seq<PixelRect> {
    match split {
        AutoSplit::One => seq![area],
        AutoSplit::TwoColumns => seq![
            parking_cells::halves_v(area).0,
            parking_cells::halves_v(area).1,
        ],
        AutoSplit::FourGrid => {
            let (top, bottom) = parking_cells::halves_h(area);
            seq![
                parking_cells::halves_v(top).0,
                parking_cells::halves_v(top).1,
                parking_cells::halves_v(bottom).0,
                parking_cells::halves_v(bottom).1,
            ]
        },
    }
}

/// Splits `work_area` into the cells of `split`, in reading order.
pub fn auto_split_cells(work_area: PixelRect, split: AutoSplit) -> (r: Vec<PixelRect>)
    requires
        work_area.fits(),
    ensures
        r@ == split_cells(work_area, split),
        r@.len() == split.cells(),
        forall|i: int| 0 <= i < r@.len() ==> (#[trigger] r@[i]).fits(),
{
    match split {
        AutoSplit::One => vec![work_area],
        AutoSplit::TwoColumns => {
            let (left, right) = parking_cells::split_v(work_area);
            vec![left, right]
        },
        AutoSplit::FourGrid => {
            let (top, bottom) = parking_cells::split_h(work_area);
            let (a, b) = parking_cells::split_v(top);
            let (c, d) = parking_cells::split_v(bottom);
            vec![a, b, c, d]
        },
    }
}

/// The cells of every split tile the work area.
pub proof fn law_split_cells_tile_the_area(area: PixelRect, split: AutoSplit)
    requires
        area.fits(),
    ensures
        parking_cells::tiles(split_cells(area, split), area),
{
    let cells = split_cells(area, split);
    let (l, r) = parking_cells::halves_v(area);
    let (top, bottom) = parking_cells::halves_h(area);
    assert forall|px: int, py: int| area.covers(px, py) implies exists|i: int|
        0 <= i < cells.len() && #[trigger] cells[i].covers(px, py) by {
        match split {
            AutoSplit::One => {
                assert(cells[0].covers(px, py));
            },
            AutoSplit::TwoColumns => {
                assert(cells[0].covers(px, py) || cells[1].covers(px, py));
            },
            AutoSplit::FourGrid => {
                assert(top.covers(px, py) || bottom.covers(px, py));
                assert(cells[0].covers(px, py) || cells[1].covers(px, py) || cells[2].covers(
                    px,
                    py,
                ) || cells[3].covers(px, py));
            },
        }
    }
}

/// Half of a work area's width or height.
pub const NORMALIZED_HALF: i64 = 500_000_000;

/// How far a saved fraction may lie from that of a grid cell to be taken for it.
pub const CELL_TOLERANCE: i64 = 20_000_000;

/// The fractions of the work area that a cell of a split takes up; the whole for a cell that
/// the split does not have.
pub open spec fn split_fractions(split: AutoSplit, cell: int) -> NormalizedRect {
    let unit = placement::NORMALIZED_UNIT;
    let half = NORMALIZED_HALF;
    if !(0 <= cell < split.cells()) {
        NormalizedRect { x: 0, y: 0, width: unit, height: unit }
    } else {
        match split {
            AutoSplit::One => NormalizedRect { x: 0, y: 0, width: unit, height: unit },
            AutoSplit::TwoColumns => NormalizedRect {
                x: if cell == 0 {
                    0
                } else {
                    half
                },
                y: 0,
                width: half,
                height: unit,
            },
            AutoSplit::FourGrid => NormalizedRect {
                x: if cell % 2 == 0 {
                    0
                } else {
                    half
                },
                y: if cell < 2 {
                    0
                } else {
                    half
                },
                width: half,
                height: half,
            },
        }
    }
}

/// The cell of [`auto_split_cells`] as fractions of the work area, so that it can be declared
/// without knowing the monitor's resolution.
pub fn normalized_split_cell(split: AutoSplit, cell_index: usize) -> (r: NormalizedRect)
    ensures
        r == split_fractions(split, cell_index as int),
{
    let unit: i64 = placement::NORMALIZED_UNIT;
    let half: i64 = NORMALIZED_HALF;
    let whole = NormalizedRect { x: 0, y: 0, width: unit, height: unit };
    if cell_index >= split.cell_count() {
        return whole;
    }
    match split {
        AutoSplit::One => whole,
        AutoSplit::TwoColumns => NormalizedRect {
            x: if cell_index == 0 {
                0
            } else {
                half
            },
            y: 0,
            width: half,
            height: unit,
        },
        AutoSplit::FourGrid => NormalizedRect {
            x: if cell_index % 2 == 0 {
                0
            } else {
                half
            },
            y: if cell_index < 2 {
                0
            } else {
                half
            },
            width: half,
            height: half,
        },
    }
}

pub open spec fn near(a: int, b: int) -> bool {
    -CELL_TOLERANCE < a - b < CELL_TOLERANCE
}

/// `rect` is within the tolerance of that cell on all four counts.
pub open spec fn reads_as(rect: NormalizedRect, split: AutoSplit, cell: int) -> bool {
    let c = split_fractions(split, cell);
    &&& near(c.x as int, rect.x as int)
    &&& near(c.y as int, rect.y as int)
    &&& near(c.width as int, rect.width as int)
    &&& near(c.height as int, rect.height as int)
}

/// Which split and cell a rectangle of fractions is; the whole where it is no cell.
pub open spec fn cell_of_fractions(rect: NormalizedRect) -> (AutoSplit, usize) {
    if reads_as(rect, AutoSplit::FourGrid, 0) {
        (AutoSplit::FourGrid, 0)
    } else if reads_as(rect, AutoSplit::FourGrid, 1) {
        (AutoSplit::FourGrid, 1)
    } else if reads_as(rect, AutoSplit::FourGrid, 2) {
        (AutoSplit::FourGrid, 2)
    } else if reads_as(rect, AutoSplit::FourGrid, 3) {
        (AutoSplit::FourGrid, 3)
    } else if reads_as(rect, AutoSplit::TwoColumns, 0) {
        (AutoSplit::TwoColumns, 0)
    } else if reads_as(rect, AutoSplit::TwoColumns, 1) {
        (AutoSplit::TwoColumns, 1)
    } else {
        (AutoSplit::One, 0)
    }
}

fn is_near(a: i64, b: i64) -> (r: bool)
    ensures
        r == near(a as int, b as int),
{
    let d: i128 = a as i128 - b as i128;
    -(CELL_TOLERANCE as i128) < d && d < CELL_TOLERANCE as i128
}

fn is_cell(rect: NormalizedRect, split: AutoSplit, cell_index: usize) -> (r: bool)
    ensures
        r == reads_as(rect, split, cell_index as int),
{
    let c = normalized_split_cell(split, cell_index);
    is_near(c.x, rect.x) && is_near(c.y, rect.y) && is_near(c.width, rect.width) && is_near(
        c.height,
        rect.height,
    )
}

/// Which split and cell a saved rectangle of fractions describes. What is recognisably no grid
/// cell reads as the whole monitor.
pub fn split_cell_from_normalized(rect: NormalizedRect) -> (r: (AutoSplit, usize))
    ensures
        r == cell_of_fractions(rect),
{
    let mut cell: usize = 0;
    while cell < 4
        invariant
            cell <= 4,
            forall|c: int| 0 <= c < cell ==> !reads_as(rect, AutoSplit::FourGrid, c),
        decreases 4 - cell,
    {
        if is_cell(rect, AutoSplit::FourGrid, cell) {
            return (AutoSplit::FourGrid, cell);
        }
        cell += 1;
    }
    if is_cell(rect, AutoSplit::TwoColumns, 0) {
        return (AutoSplit::TwoColumns, 0);
    }
    if is_cell(rect, AutoSplit::TwoColumns, 1) {
        return (AutoSplit::TwoColumns, 1);
    }
    (AutoSplit::One, 0)
}

/// Every cell is read back from its own fractions.
pub proof fn law_split_cell_round_trip(split: AutoSplit, cell: usize)
    requires
        cell < split.cells(),
    ensures
        cell_of_fractions(split_fractions(split, cell as int)) == (split, cell),
{
}

/// A rectangle within the tolerance of a cell is read as that cell, and as no other.
pub proof fn law_cells_are_told_apart(rect: NormalizedRect, split: AutoSplit, cell: usize)
    requires
        cell < split.cells(),
        reads_as(rect, split, cell as int),
    ensures
        cell_of_fractions(rect) == (split, cell),
{
}

/// `a` and `b` differ by one pixel at most on all four counts.
pub open spec fn within_a_pixel(a: PixelRect, b: PixelRect) -> bool {
    &&& -1 <= a.x - b.x <= 1
    &&& -1 <= a.y - b.y <= 1
    &&& -1 <= a.width - b.width <= 1
    &&& -1 <= a.height - b.height <= 1
}

/// The pixels of a cell's fractions are the cell's pixels, but for one pixel where the work area
/// has an odd size.
pub proof fn law_fractions_name_the_cell(area: PixelRect, split: AutoSplit, cell: usize)
    requires
        area.fits(),
        area.width >= 0,
        area.height >= 0,
        cell < split.cells(),
    ensures
        within_a_pixel(
            placement::denormalized(split_fractions(split, cell as int), area),
            split_cells(area, split)[cell as int],
        ),
        area.width % 2 == 0 && area.height % 2 == 0 ==> placement::denormalized(
            split_fractions(split, cell as int),
            area,
        ) == split_cells(area, split)[cell as int],
{
    lemma_whole_and_half(area.width as int);
    lemma_whole_and_half(area.height as int);
}

proof fn lemma_whole_and_half(length: int)
    requires
        0 <= length,
    ensures
        placement::fraction_length(0, length) == 0,
        placement::fraction_length(NORMALIZED_HALF as int, length) == (length + 1) / 2,
        placement::fraction_length(placement::NORMALIZED_UNIT as int, length) == length,
{
    let unit: int = 1_000_000_000;
    let half: int = 500_000_000;
    assert(placement::NORMALIZED_UNIT == unit);
    assert(NORMALIZED_HALF == half);
    assert(2 * (half * length) + unit == unit * (length + 1));
    assert((2 * (half * length) + unit) / (2 * unit) == (length + 1) / 2);
    assert(0 * length == 0);
    assert((2 * 0 + unit) / (2 * unit) == 0);
}

/// The middle of `window` lies on one of the rectangles.
pub open spec fn stands_on(window: TopLevelWindow, bounds: Seq<PixelRect>) -> bool {
    exists|i: int|
        0 <= i < bounds.len() && (#[trigger] bounds[i]).covers(
            window.rect_px.mid_x(),
            window.rect_px.mid_y(),
        )
}

fn middle_is_on(window: &TopLevelWindow, bounds: &[PixelRect]) -> (r: bool)
    ensures
        r == stands_on(*window, bounds@),
{
    let (cx, cy) = window.rect_px.center_wide();
    let mut i: usize = 0;
    while i < bounds.len()
        invariant
            i <= bounds@.len(),
            cx == window.rect_px.mid_x(),
            cy == window.rect_px.mid_y(),
            forall|j: int| 0 <= j < i ==> !(#[trigger] bounds@[j]).covers(cx as int, cy as int),
        decreases bounds@.len() - i,
    {
        if bounds[i].contains_wide(cx, cy) {
            return true;
        }
        i += 1;
    }
    false
}

/// The windows whose middle lies on one of the main monitors, in the order given.
pub fn find_windows_on_main_screen(
    windows: &[TopLevelWindow],
    main_monitor_bounds: &[PixelRect],
) -> (r: Vec<TopLevelWindow>)
    ensures
        r@ == windows@.filter(|w: TopLevelWindow| stands_on(w, main_monitor_bounds@)),
{
    let ghost keep = |w: TopLevelWindow| stands_on(w, main_monitor_bounds@);
    let mut out: Vec<TopLevelWindow> = Vec::new();
    let mut i: usize = 0;
    proof {
        reveal(Seq::filter);
    }
    while i < windows.len()
        invariant
            i <= windows@.len(),
            keep == (|w: TopLevelWindow| stands_on(w, main_monitor_bounds@)),
            out@ == windows@.take(i as int).filter(keep),
        decreases windows@.len() - i,
    {
        proof {
            reveal(Seq::filter);
            assert(windows@.take(i + 1).drop_last() =~= windows@.take(i as int));
        }
        if middle_is_on(&windows[i], main_monitor_bounds) {
            out.push(windows[i].clone());
        }
        i += 1;
    }
    assert(windows@.take(windows@.len() as int) =~= windows@);
    out
}

/// Where one window was before the main screen was emptied.
#[derive(Clone, Copy, Debug)]
pub struct UndoEntry {
    pub hwnd: isize,
    pub process_id: u32,
    pub before_rect: PixelRect,
    pub before_show_state: SavedShowState,
}

/// The one step that can be taken back.
#[derive(Debug)]
pub struct UndoSnapshot {
    pub entries: Vec<UndoEntry>,
}

impl UndoSnapshot {
    pub fn is_empty(&self) -> (r: bool)
        ensures
            r == (self.entries@.len() == 0),
    {
        self.entries.len() == 0
    }
}

} // verus!
