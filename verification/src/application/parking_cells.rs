//! Cutting a parking screen into cells, and spreading windows over several screens.

use vstd::prelude::*;

use crate::domain::placement::PixelRect;
use crate::domain::placement;

verus! {

// ---------------------------------------------------------------------------
// Cuts
// ---------------------------------------------------------------------------

/// The left and the right half.
pub open spec fn halves_v(rect: PixelRect) -> (PixelRect, PixelRect) {
    let left = placement::quotient(rect.width as int, 2);
    (
        PixelRect { width: left as i32, ..rect },
        PixelRect { x: (rect.x + left) as i32, width: (rect.width - left) as i32, ..rect },
    )
}

/// The upper and the lower half.
pub open spec fn halves_h(rect: PixelRect) -> (PixelRect, PixelRect) {
    let top = placement::quotient(rect.height as int, 2);
    (
        PixelRect { height: top as i32, ..rect },
        PixelRect { y: (rect.y + top) as i32, height: (rect.height - top) as i32, ..rect },
    )
}

/// Splits `rect` into left and right halves.
pub fn split_v(rect: PixelRect) -> (r: (PixelRect, PixelRect))
    requires
        rect.fits(),
    ensures
        r == halves_v(rect),
        r.0.fits(),
        r.1.fits(),
{
    let left: i32 = rect.width / 2;
    (
        PixelRect::new(rect.x, rect.y, left, rect.height),
        PixelRect::new(rect.x + left, rect.y, rect.width - left, rect.height),
    )
}

/// Splits `rect` into top and bottom halves.
pub fn split_h(rect: PixelRect) -> (r: (PixelRect, PixelRect))
    requires
        rect.fits(),
    ensures
        r == halves_h(rect),
        r.0.fits(),
        r.1.fits(),
{
    let top: i32 = rect.height / 2;
    (
        PixelRect::new(rect.x, rect.y, rect.width, top),
        PixelRect::new(rect.x, rect.y + top, rect.width, rect.height - top),
    )
}

/// How far along a length the boundary before part `k` of `n` lies.
pub open spec fn boundary(length: int, k: int, n: int) -> int {
    placement::quotient(length * k, n)
}

/// The cell in column `c` and row `r` of a grid over `rect`.
pub open spec fn grid_cell(rect: PixelRect, cols: int, rows: int, c: int, r: int) -> PixelRect {
    let x0 = boundary(rect.width as int, c, cols);
    let x1 = boundary(rect.width as int, c + 1, cols);
    let y0 = boundary(rect.height as int, r, rows);
    let y1 = boundary(rect.height as int, r + 1, rows);
    PixelRect {
        x: (rect.x + x0) as i32,
        y: (rect.y + y0) as i32,
        width: (x1 - x0) as i32,
        height: (y1 - y0) as i32,
    }
}

/// A grid over `rect`, row by row.
pub open spec fn grid_cells(rect: PixelRect, cols: int, rows: int) -> Seq<PixelRect> {
    Seq::new((cols * rows) as nat, |i: int| grid_cell(rect, cols, rows, i % cols, i / cols))
}

proof fn lemma_boundary(length: int, k: int, n: int)
    requires
        1 <= n,
        0 <= k <= n,
    ensures
        length >= 0 ==> 0 <= boundary(length, k, n) <= length,
        length < 0 ==> length <= boundary(length, k, n) <= 0,
        boundary(length, 0, n) == 0,
        boundary(length, n, n) == length,
        length >= 0 ==> 0 <= length * k <= length * n,
        length < 0 ==> length * n <= length * k <= 0,
{
    let m = if length >= 0 {
        length
    } else {
        -length
    };
    assert(0 <= m * k <= m * n && (m * k) / n <= m && 0 <= (m * k) / n) by (nonlinear_arith)
        requires
            1 <= n,
            0 <= k <= n,
            m >= 0,
    ;
    assert((m * n) / n == m && (m * 0) / n == 0) by (nonlinear_arith)
        requires
            1 <= n,
            m >= 0,
    ;
    assert(length < 0 ==> -(length * k) == m * k) by (nonlinear_arith)
        requires
            length < 0 ==> m == -length,
    ;
    assert(length < 0 ==> -(length * n) == m * n) by (nonlinear_arith)
        requires
            length < 0 ==> m == -length,
    ;
    assert(m * 0 == 0 && length * 0 == 0);
    if length < 0 {
        if length * k >= 0 {
            assert(length * k == 0);
            assert(0int / n == 0) by (nonlinear_arith)
                requires
                    1 <= n,
            ;
        }
        assert(length * n < 0) by (nonlinear_arith)
            requires
                length < 0,
                1 <= n,
        ;
    }
}

fn boundary_at(length: i32, k: i32, n: i32) -> (r: i32)
    requires
        1 <= n,
        0 <= k <= n,
    ensures
        r == boundary(length as int, k as int, n as int),
        length >= 0 ==> 0 <= r <= length,
        length < 0 ==> length <= r <= 0,
{
    proof {
        lemma_boundary(length as int, k as int, n as int);
        assert(-0x4000_0000_0000_0000 <= length * k <= 0x4000_0000_0000_0000) by (nonlinear_arith)
            requires
                -0x8000_0000 <= length <= 0x7fff_ffff,
                0 <= k <= 0x7fff_ffff,
        ;
    }
    let product: i64 = length as i64 * k as i64;
    (product / n as i64) as i32
}

/// Where a place in the reading order of a grid lies.
proof fn lemma_place_in_grid(i: int, cols: int, rows: int)
    requires
        1 <= cols,
        0 <= i < cols * rows,
    ensures
        0 <= i % cols < cols,
        0 <= i / cols < rows,
        i == (i / cols) * cols + i % cols,
{
    assert(0 <= i % cols < cols && 0 <= i / cols < rows && i == (i / cols) * cols + i % cols)
        by (nonlinear_arith)
        requires
            1 <= cols,
            0 <= i < cols * rows,
    ;
}

/// A `cols` by `rows` grid over `rect`, in reading order. The boundaries are exact fractions, so
/// the cells tile `rect` even where its size does not divide evenly.
pub fn grid(rect: PixelRect, cols: i32, rows: i32) -> (r: Vec<PixelRect>)
    requires
        rect.fits(),
        0 <= cols,
        0 <= rows,
        cols * rows <= i32::MAX,
    ensures
        r@ == grid_cells(rect, cols as int, rows as int),
        forall|i: int| 0 <= i < r@.len() ==> (#[trigger] r@[i]).fits(),
{
    let mut cells: Vec<PixelRect> = Vec::new();
    assert(0 <= cols * rows) by (nonlinear_arith)
        requires
            0 <= cols,
            0 <= rows,
    ;
    let total: i32 = cols * rows;
    let mut i: i32 = 0;
    while i < total
        invariant
            rect.fits(),
            0 <= cols,
            0 <= rows,
            total == cols * rows,
            0 <= i <= total,
            cells@.len() == i,
            forall|j: int|
                0 <= j < i ==> (#[trigger] cells@[j]) == grid_cell(
                    rect,
                    cols as int,
                    rows as int,
                    j % (cols as int),
                    j / (cols as int),
                ) && cells@[j].fits(),
        decreases total - i,
    {
        assert(1 <= cols && 1 <= rows) by (nonlinear_arith)
            requires
                0 <= cols,
                0 <= rows,
                0 < cols * rows,
        ;
        proof {
            lemma_place_in_grid(i as int, cols as int, rows as int);
        }
        let c: i32 = i % cols;
        let row: i32 = i / cols;
        let x0: i32 = boundary_at(rect.width, c, cols);
        let x1: i32 = boundary_at(rect.width, c + 1, cols);
        let y0: i32 = boundary_at(rect.height, row, rows);
        let y1: i32 = boundary_at(rect.height, row + 1, rows);
        proof {
            lemma_boundary_monotone(rect.width as int, c as int, c + 1, cols as int);
            lemma_boundary_monotone(rect.height as int, row as int, row + 1, rows as int);
        }
        cells.push(PixelRect::new(rect.x + x0, rect.y + y0, x1 - x0, y1 - y0));
        i += 1;
    }
    proof {
        let g = grid_cells(rect, cols as int, rows as int);
        assert(cells@ =~= g);
    }
    cells
}

// ---------------------------------------------------------------------------
// Cells for a number of windows
// ---------------------------------------------------------------------------

/// How many windows a parking screen holds: a 3x2 grid of six where its longer side has at
/// least 2400 pixels, and four otherwise.
pub open spec fn capacity_of(rect: PixelRect) -> nat {
    if rect.width >= 2400 || rect.height >= 2400 {
        6
    } else {
        4
    }
}

pub fn screen_capacity(rect: PixelRect) -> (r: usize)
    ensures
        r == capacity_of(rect),
{
    let longer: i32 = if rect.width >= rect.height {
        rect.width
    } else {
        rect.height
    };
    if longer >= 2400 {
        6
    } else {
        4
    }
}

/// The first cut, along the longer axis.
pub open spec fn first_cut(rect: PixelRect, wide: bool) -> (PixelRect, PixelRect) {
    if wide {
        halves_v(rect)
    } else {
        halves_h(rect)
    }
}

/// The cells that `count` windows get: halves along the longer axis, each deeper cut across the
/// one before, and a grid of six for five windows or more.
pub open spec fn cells_for(rect: PixelRect, count: nat) -> Seq<PixelRect> {
    let wide = rect.width >= rect.height;
    let (a, b) = first_cut(rect, wide);
    if count <= 1 {
        seq![rect]
    } else if count == 2 {
        seq![a, b]
    } else if count == 3 {
        seq![a, first_cut(b, !wide).0, first_cut(b, !wide).1]
    } else if count == 4 {
        seq![
            first_cut(a, !wide).0,
            first_cut(a, !wide).1,
            first_cut(b, !wide).0,
            first_cut(b, !wide).1,
        ]
    } else if wide {
        grid_cells(rect, 3, 2)
    } else {
        grid_cells(rect, 2, 3)
    }
}

/// As many cells as windows, up to six.
pub proof fn lemma_cells_for_len(rect: PixelRect, count: nat)
    ensures
        cells_for(rect, count).len() == if count <= 1 {
            1
        } else if count <= 4 {
            count
        } else {
            6nat
        },
{
}

fn cut(rect: PixelRect, vertical: bool) -> (r: (PixelRect, PixelRect))
    requires
        rect.fits(),
    ensures
        r == first_cut(rect, vertical),
        r.0.fits(),
        r.1.fits(),
{
    if vertical {
        split_v(rect)
    } else {
        split_h(rect)
    }
}

/// Cuts a region into cells for up to six windows, so that none overlap.
pub fn subdivide_for_count(rect: PixelRect, count: usize) -> (r: Vec<PixelRect>)
    requires
        rect.fits(),
    ensures
        r@ == cells_for(rect, count as nat),
        forall|i: int| 0 <= i < r@.len() ==> (#[trigger] r@[i]).fits(),
{
    let wide = rect.width >= rect.height;
    if count <= 1 {
        return vec![rect];
    }
    let (a, b) = cut(rect, wide);
    if count == 2 {
        vec![a, b]
    } else if count == 3 {
        let (b1, b2) = cut(b, !wide);
        vec![a, b1, b2]
    } else if count == 4 {
        let (a1, a2) = cut(a, !wide);
        let (b1, b2) = cut(b, !wide);
        vec![a1, a2, b1, b2]
    } else if wide {
        grid(rect, 3, 2)
    } else {
        grid(rect, 2, 3)
    }
}

/// What is cut out of a rectangle that can be cut up can be cut up in turn.
pub proof fn lemma_cells_fit(rect: PixelRect, count: nat)
    requires
        rect.fits(),
    ensures
        forall|i: int|
            0 <= i < cells_for(rect, count).len() ==> (#[trigger] cells_for(rect, count)[i]).fits(),
{
    let cells = cells_for(rect, count);
    if count > 4 {
        let cols: int = if rect.width >= rect.height {
            3
        } else {
            2
        };
        let rows: int = 5 - cols;
        assert forall|i: int| 0 <= i < cells.len() implies (#[trigger] cells[i]).fits() by {
            let c = i % cols;
            let r = i / cols;
            assert(cells[i] == grid_cell(rect, cols, rows, c, r));
            lemma_place_in_grid(i, cols, rows);
            lemma_boundary(rect.width as int, c, cols);
            lemma_boundary(rect.width as int, c + 1, cols);
            lemma_boundary(rect.height as int, r, rows);
            lemma_boundary(rect.height as int, r + 1, rows);
            lemma_boundary_monotone(rect.width as int, c, c + 1, cols);
            lemma_boundary_monotone(rect.height as int, r, r + 1, rows);
        }
    }
}

/// `cells` cover exactly the pixels of `rect`, and no pixel twice.
pub open spec fn tiles(cells: Seq<PixelRect>, rect: PixelRect) -> bool {
    &&& forall|px: int, py: int|
        rect.covers(px, py) ==> exists|i: int|
            0 <= i < cells.len() && #[trigger] cells[i].covers(px, py)
    &&& forall|i: int, px: int, py: int|
        0 <= i < cells.len() && #[trigger] cells[i].covers(px, py) ==> rect.covers(px, py)
    &&& forall|i: int, j: int, px: int, py: int|
        0 <= i < j < cells.len() && #[trigger] cells[i].covers(px, py) ==> !(
        #[trigger] cells[j].covers(px, py))
}

/// However many windows there are, the cells tile the region: nothing of it is left over,
/// nothing reaches out of it, and no two cells overlap.
pub proof fn law_cells_tile_the_region(rect: PixelRect, count: nat)
    requires
        rect.fits(),
    ensures
        tiles(cells_for(rect, count), rect),
{
    let cells = cells_for(rect, count);
    let wide = rect.width >= rect.height;
    if count <= 1 {
        assert forall|px: int, py: int| rect.covers(px, py) implies exists|i: int|
            0 <= i < cells.len() && #[trigger] cells[i].covers(px, py) by {
            assert(cells[0].covers(px, py));
        }
    } else if count <= 4 {
        let (a, b) = first_cut(rect, wide);
        let (a1, a2) = first_cut(a, !wide);
        let (b1, b2) = first_cut(b, !wide);
        assert forall|px: int, py: int| rect.covers(px, py) implies exists|i: int|
            0 <= i < cells.len() && #[trigger] cells[i].covers(px, py) by {
            assert(a.covers(px, py) || b.covers(px, py));
            if count == 2 {
                assert(cells[0].covers(px, py) || cells[1].covers(px, py));
            } else if count == 3 {
                assert(b.covers(px, py) ==> b1.covers(px, py) || b2.covers(px, py));
                assert(cells[0].covers(px, py) || cells[1].covers(px, py) || cells[2].covers(
                    px,
                    py,
                ));
            } else {
                assert(a.covers(px, py) ==> a1.covers(px, py) || a2.covers(px, py));
                assert(b.covers(px, py) ==> b1.covers(px, py) || b2.covers(px, py));
                assert(cells[0].covers(px, py) || cells[1].covers(px, py) || cells[2].covers(
                    px,
                    py,
                ) || cells[3].covers(px, py));
            }
        }
    } else {
        let cols: int = if wide {
            3
        } else {
            2
        };
        let rows: int = if wide {
            2
        } else {
            3
        };
        law_grid_tiles_the_region(rect, cols, rows);
    }
}

/// Boundaries grow along the length.
proof fn lemma_boundary_monotone(length: int, j: int, k: int, n: int)
    requires
        1 <= n,
        0 <= j <= k <= n,
    ensures
        length >= 0 ==> boundary(length, j, n) <= boundary(length, k, n),
        length < 0 ==> boundary(length, k, n) <= boundary(length, j, n),
{
    let m = if length >= 0 {
        length
    } else {
        -length
    };
    assert((m * j) / n <= (m * k) / n) by (nonlinear_arith)
        requires
            1 <= n,
            0 <= j <= k,
            m >= 0,
    ;
    assert(length < 0 ==> -(length * k) == m * k && -(length * j) == m * j) by (nonlinear_arith)
        requires
            length < 0 ==> m == -length,
    ;
    lemma_boundary(length, j, n);
    lemma_boundary(length, k, n);
    if length < 0 {
        assert(length * j >= 0 ==> length * j == 0);
        assert(length * k >= 0 ==> length * k == 0);
        assert(0int / n == 0) by (nonlinear_arith)
            requires
                1 <= n,
        ;
    }
}

/// A place before boundary `k` lies in one of the first `k` parts.
proof fn lemma_part_of(length: int, k: int, n: int, at: int) -> (c: int)
    requires
        1 <= n,
        0 <= k <= n,
        0 <= at < boundary(length, k, n),
    ensures
        0 <= c < k,
        boundary(length, c, n) <= at < boundary(length, c + 1, n),
    decreases k,
{
    lemma_boundary(length, 0, n);
    if at < boundary(length, k - 1, n) {
        lemma_part_of(length, k - 1, n, at)
    } else {
        k - 1
    }
}

/// What a cell of a grid covers.
proof fn lemma_grid_cell_covers(
    rect: PixelRect,
    cols: int,
    rows: int,
    c: int,
    r: int,
    px: int,
    py: int,
)
    requires
        rect.fits(),
        0 <= c < cols,
        0 <= r < rows,
    ensures
        grid_cell(rect, cols, rows, c, r).covers(px, py) <==> boundary(rect.width as int, c, cols)
            <= px - rect.x < boundary(rect.width as int, c + 1, cols) && boundary(
            rect.height as int,
            r,
            rows,
        ) <= py - rect.y < boundary(rect.height as int, r + 1, rows),
{
    lemma_boundary(rect.width as int, c, cols);
    lemma_boundary(rect.width as int, c + 1, cols);
    lemma_boundary(rect.height as int, r, rows);
    lemma_boundary(rect.height as int, r + 1, rows);
    lemma_boundary_monotone(rect.width as int, c, c + 1, cols);
    lemma_boundary_monotone(rect.height as int, r, r + 1, rows);
}

/// The cells of a grid tile the region that it is laid over, whether its size divides evenly or
/// not.
pub proof fn law_grid_tiles_the_region(rect: PixelRect, cols: int, rows: int)
    requires
        rect.fits(),
        1 <= cols,
        1 <= rows,
    ensures
        tiles(grid_cells(rect, cols, rows), rect),
{
    let cells = grid_cells(rect, cols, rows);
    let w = rect.width as int;
    let h = rect.height as int;
    assert(0 <= cols * rows) by (nonlinear_arith)
        requires
            1 <= cols,
            1 <= rows,
    ;
    lemma_boundary(w, cols, cols);
    lemma_boundary(h, rows, rows);
    assert forall|px: int, py: int| rect.covers(px, py) implies exists|i: int|
        0 <= i < cells.len() && #[trigger] cells[i].covers(px, py) by {
        let c = lemma_part_of(w, cols, cols, px - rect.x);
        let r = lemma_part_of(h, rows, rows, py - rect.y);
        let i = r * cols + c;
        assert(0 <= i < cols * rows && i % cols == c && i / cols == r) by (nonlinear_arith)
            requires
                0 <= c < cols,
                0 <= r < rows,
                i == r * cols + c,
        ;
        lemma_grid_cell_covers(rect, cols, rows, c, r, px, py);
        assert(cells[i].covers(px, py));
    }
    assert forall|i: int, px: int, py: int|
        0 <= i < cells.len() && #[trigger] cells[i].covers(px, py) implies rect.covers(px, py) by {
        lemma_place_in_grid(i, cols, rows);
        let (c, r) = (i % cols, i / cols);
        lemma_grid_cell_covers(rect, cols, rows, c, r, px, py);
        lemma_boundary(w, c, cols);
        lemma_boundary(w, c + 1, cols);
        lemma_boundary(h, r, rows);
        lemma_boundary(h, r + 1, rows);
        lemma_apart(w, c, c, cols);
        lemma_apart(h, r, r, rows);
    }
    assert forall|i: int, j: int, px: int, py: int|
        0 <= i < j < cells.len() && #[trigger] cells[i].covers(px, py) implies !(
    #[trigger] cells[j].covers(px, py)) by {
        lemma_place_in_grid(i, cols, rows);
        lemma_place_in_grid(j, cols, rows);
        let (c, r) = (i % cols, i / cols);
        let (d, s) = (j % cols, j / cols);
        lemma_grid_cell_covers(rect, cols, rows, c, r, px, py);
        lemma_grid_cell_covers(rect, cols, rows, d, s, px, py);
        lemma_apart(w, c, d, cols);
        lemma_apart(w, d, c, cols);
        lemma_apart(h, r, s, rows);
        lemma_apart(h, s, r, rows);
    }
}

/// An earlier part ends before a later one begins.
proof fn lemma_apart(length: int, c: int, d: int, n: int)
    requires
        0 <= c < n,
        0 <= d < n,
    ensures
        length >= 0 && c < d ==> boundary(length, c + 1, n) <= boundary(length, d, n),
        length < 0 ==> boundary(length, c + 1, n) <= boundary(length, c, n),
{
    if c < d {
        lemma_boundary_monotone(length, c + 1, d, n);
    }
    lemma_boundary_monotone(length, c, c + 1, n);
}

/// The area of the smallest of `cells`.
pub open spec fn least_area(cells: Seq<PixelRect>) -> int
    decreases cells.len(),
{
    if cells.len() <= 1 {
        cells[0].area()
    } else {
        placement::min_of(least_area(cells.drop_last()), cells.last().area())
    }
}

/// The area of the smallest cell that `count` windows get.
pub fn smallest_cell_area(rect: PixelRect, count: usize) -> (r: i64)
    requires
        rect.fits(),
    ensures
        r == least_area(cells_for(rect, count as nat)),
{
    let cells = subdivide_for_count(rect, count);
    proof {
        lemma_cells_for_len(rect, count as nat);
    }
    let mut least: i64 = cells[0].area_wide();
    let mut i: usize = 1;
    while i < cells.len()
        invariant
            1 <= i <= cells@.len(),
            least == least_area(cells@.take(i as int)),
        decreases cells@.len() - i,
    {
        let area: i64 = cells[i].area_wide();
        proof {
            assert(cells@.take(i + 1).drop_last() =~= cells@.take(i as int));
            assert(cells@.take(i + 1).last() == cells@[i as int]);
        }
        if area < least {
            least = area;
        }
        i += 1;
    }
    assert(cells@.take(cells@.len() as int) =~= cells@);
    least
}

/// Place `j` of `now` holds a cell that is no larger than that at place `i` of `before`.
spec fn no_larger(now: Seq<PixelRect>, j: int, before: Seq<PixelRect>, i: int) -> bool {
    0 <= j < now.len() && now[j].area() <= before[i].area()
}

/// Where every cell of `before` has one in `now` that is no larger, at the place that `of` gives,
/// so has the smallest.
proof fn lemma_least_area(now: Seq<PixelRect>, before: Seq<PixelRect>, of: spec_fn(int) -> int)
    requires
        before.len() >= 1,
        forall|i: int| 0 <= i < before.len() ==> #[trigger] no_larger(now, of(i), before, i),
    ensures
        least_area(now) <= least_area(before),
    decreases before.len(),
{
    let last = before.len() - 1;
    assert(no_larger(now, of(last), before, last));
    lemma_least_area_of(now, of(last));
    if before.len() > 1 {
        let rest = before.drop_last();
        assert forall|i: int| 0 <= i < rest.len() implies #[trigger] no_larger(
            now,
            of(i),
            rest,
            i,
        ) by {
            assert(no_larger(now, of(i), before, i));
            assert(rest[i] == before[i]);
        }
        lemma_least_area(now, rest, of);
    }
}

proof fn lemma_least_area_of(cells: Seq<PixelRect>, j: int)
    requires
        0 <= j < cells.len(),
    ensures
        least_area(cells) <= cells[j].area(),
    decreases cells.len(),
{
    if cells.len() > 1 && j < cells.len() - 1 {
        lemma_least_area_of(cells.drop_last(), j);
    }
}

proof fn lemma_smaller_area(a: PixelRect, b: PixelRect)
    requires
        0 <= a.width <= b.width,
        0 <= a.height <= b.height,
    ensures
        a.area() <= b.area(),
{
    assert(a.width * a.height <= b.width * b.height) by (nonlinear_arith)
        requires
            0 <= a.width <= b.width,
            0 <= a.height <= b.height,
    ;
}

/// One more window never makes the smallest cell larger.
pub proof fn law_more_windows_smaller_cells(rect: PixelRect, count: nat)
    requires
        rect.fits(),
        rect.width >= 0,
        rect.height >= 0,
    ensures
        least_area(cells_for(rect, count + 1)) <= least_area(cells_for(rect, count)),
{
    let now = cells_for(rect, count + 1);
    let before = cells_for(rect, count);
    lemma_cells_for_len(rect, count);
    lemma_cells_for_len(rect, count + 1);
    let (w, h) = (rect.width as int, rect.height as int);
    assert((w * 1) / 3 <= w / 2 && (h * 1) / 3 <= h / 2);
    lemma_boundary(w, 0, 3);
    lemma_boundary(h, 0, 3);
    lemma_boundary(w, 0, 2);
    lemma_boundary(h, 0, 2);
    let of = |i: int|
        if count == 1 || count == 4 {
            0
        } else if count == 3 && i > 0 {
            i + 1
        } else {
            i
        };
    assert forall|i: int| 0 <= i < before.len() implies #[trigger] no_larger(
        now,
        of(i),
        before,
        i,
    ) by {
        assert(i == 0 || i == 1 || i == 2 || i == 3 || count >= 5);
        if count == 0 || count >= 5 || (count == 3 && i > 0) {
            assert(now[of(i)] == before[i]);
        } else {
            lemma_smaller_area(now[of(i)], before[i]);
        }
    }
    lemma_least_area(now, before, of);
}

// ---------------------------------------------------------------------------
// Several screens
// ---------------------------------------------------------------------------

/// Screen `i` can take one more window.
pub open spec fn has_room(screens: Seq<PixelRect>, held: Seq<Seq<isize>>, i: int) -> bool {
    held[i].len() < capacity_of(screens[i])
}

/// The smallest cell of screen `i` once it takes one more window.
pub open spec fn next_cell(screens: Seq<PixelRect>, held: Seq<Seq<isize>>, i: int) -> int {
    least_area(cells_for(screens[i], held[i].len() + 1))
}

/// Of the first `n` screens that have room, the one whose smallest cell would stay largest; the
/// first of them where several are equal.
pub open spec fn best_screen(screens: Seq<PixelRect>, held: Seq<Seq<isize>>, n: nat) -> Option<int>
    decreases n,
{
    if n == 0 {
        None
    } else {
        let i = n - 1;
        let best = best_screen(screens, held, i as nat);
        if has_room(screens, held, i) && (best is None || next_cell(screens, held, i) > next_cell(
            screens,
            held,
            best->0,
        )) {
            Some(i)
        } else {
            best
        }
    }
}

/// What `best_screen` picks has room, and no other screen with room would keep a larger cell.
pub proof fn lemma_best_screen(screens: Seq<PixelRect>, held: Seq<Seq<isize>>, n: nat)
    ensures
        match best_screen(screens, held, n) {
            Some(b) => {
                &&& 0 <= b < n
                &&& has_room(screens, held, b)
                &&& forall|j: int|
                    0 <= j < n && has_room(screens, held, j) ==> next_cell(screens, held, j)
                        < next_cell(screens, held, b) || (next_cell(screens, held, j) == next_cell(
                        screens,
                        held,
                        b,
                    ) && b <= j)
            },
            None => forall|j: int| 0 <= j < n ==> !has_room(screens, held, j),
        },
    decreases n,
{
    if n > 0 {
        lemma_best_screen(screens, held, (n - 1) as nat);
    }
}

/// Which windows each screen holds, and which found no room, after all of `windows` were dealt
/// out one by one.
pub open spec fn spread(screens: Seq<PixelRect>, windows: Seq<isize>) -> (
    Seq<Seq<isize>>,
    Seq<isize>,
)
    decreases windows.len(),
{
    if windows.len() == 0 {
        (Seq::new(screens.len(), |i: int| Seq::<isize>::empty()), Seq::<isize>::empty())
    } else {
        let (held, over) = spread(screens, windows.drop_last());
        match best_screen(screens, held, screens.len()) {
            Some(i) => (held.update(i, held[i].push(windows.last())), over),
            None => (held, over.push(windows.last())),
        }
    }
}

/// The windows of one screen with their cells.
pub open spec fn screen_placements(screen: PixelRect, held: Seq<isize>) -> Seq<(isize, PixelRect)> {
    Seq::new(held.len(), |k: int| (held[k], cells_for(screen, held.len())[k]))
}

/// The windows of the first `n` screens with their cells, screen by screen.
pub open spec fn placements_upto(
    screens: Seq<PixelRect>,
    held: Seq<Seq<isize>>,
    n: nat,
) -> Seq<(isize, PixelRect)>
    decreases n,
{
    if n == 0 {
        Seq::empty()
    } else {
        placements_upto(screens, held, (n - 1) as nat) + screen_placements(
            screens[n - 1],
            held[n - 1],
        )
    }
}

pub open spec fn all_fit(screens: Seq<PixelRect>) -> bool {
    forall|i: int| 0 <= i < screens.len() ==> (#[trigger] screens[i]).fits()
}

/// No screen holds more windows than it has room for.
pub proof fn law_spread_keeps_capacity(screens: Seq<PixelRect>, windows: Seq<isize>)
    ensures
        ({
            let (held, over) = spread(screens, windows);
            &&& held.len() == screens.len()
            &&& forall|i: int|
                0 <= i < screens.len() ==> (#[trigger] held[i]).len() <= capacity_of(screens[i])
        }),
    decreases windows.len(),
{
    if windows.len() > 0 {
        law_spread_keeps_capacity(screens, windows.drop_last());
        let (held, over) = spread(screens, windows.drop_last());
        lemma_best_screen(screens, held, screens.len());
    }
}

/// A window is turned away only when every screen is full.
pub proof fn law_overflow_only_when_full(screens: Seq<PixelRect>, windows: Seq<isize>)
    ensures
        ({
            let (held, over) = spread(screens, windows);
            over.len() > 0 ==> forall|i: int|
                0 <= i < screens.len() ==> (#[trigger] held[i]).len() == capacity_of(screens[i])
        }),
    decreases windows.len(),
{
    if windows.len() > 0 {
        law_overflow_only_when_full(screens, windows.drop_last());
        law_spread_keeps_capacity(screens, windows.drop_last());
        let (held, over) = spread(screens, windows.drop_last());
        lemma_best_screen(screens, held, screens.len());
        if best_screen(screens, held, screens.len()) is None {
            assert forall|i: int| 0 <= i < screens.len() implies (#[trigger] held[i]).len()
                == capacity_of(screens[i]) by {
                assert(!has_room(screens, held, i));
            }
        }
    }
}

/// How often `w` occurs over all screens.
pub open spec fn times_held(held: Seq<Seq<isize>>, w: isize) -> nat
    decreases held.len(),
{
    if held.len() == 0 {
        0
    } else {
        times_held(held.drop_last(), w) + held.last().to_multiset().count(w)
    }
}

proof fn lemma_times_held_update(held: Seq<Seq<isize>>, i: int, v: isize, w: isize)
    requires
        0 <= i < held.len(),
    ensures
        times_held(held.update(i, held[i].push(v)), w) == times_held(held, w) + if v == w {
            1nat
        } else {
            0
        },
    decreases held.len(),
{
    broadcast use vstd::seq_lib::group_to_multiset_ensures;

    let next = held.update(i, held[i].push(v));
    if i == held.len() - 1 {
        assert(next.drop_last() =~= held.drop_last());
    } else {
        assert(next.drop_last() =~= held.drop_last().update(i, held.drop_last()[i].push(v)));
        lemma_times_held_update(held.drop_last(), i, v, w);
    }
}

proof fn lemma_times_held_none(held: Seq<Seq<isize>>, w: isize)
    requires
        forall|i: int| 0 <= i < held.len() ==> (#[trigger] held[i]).len() == 0,
    ensures
        times_held(held, w) == 0,
    decreases held.len(),
{
    broadcast use vstd::seq_lib::group_to_multiset_ensures;

    if held.len() > 0 {
        assert(held.last() =~= Seq::<isize>::empty());
        assert(held.last().to_multiset().count(w) == 0) by {
            if held.last().to_multiset().count(w) > 0 {
                assert(held.last().contains(w));
            }
        }
        lemma_times_held_none(held.drop_last(), w);
    }
}

/// No window is lost and none is doubled: each is held by a screen or turned away.
pub proof fn law_spread_loses_no_window(screens: Seq<PixelRect>, windows: Seq<isize>, w: isize)
    ensures
        ({
            let (held, over) = spread(screens, windows);
            times_held(held, w) + over.to_multiset().count(w) == windows.to_multiset().count(w)
        }),
    decreases windows.len(),
{
    broadcast use vstd::seq_lib::group_to_multiset_ensures;

    if windows.len() == 0 {
        let (held, over) = spread(screens, windows);
        lemma_times_held_none(held, w);
        assert(over =~= windows);
    } else {
        let before = windows.drop_last();
        law_spread_loses_no_window(screens, before, w);
        law_spread_keeps_capacity(screens, before);
        assert(windows =~= before.push(windows.last()));
        let (held, over) = spread(screens, before);
        lemma_best_screen(screens, held, screens.len());
        if let Some(i) = best_screen(screens, held, screens.len()) {
            lemma_times_held_update(held, i, windows.last(), w);
        }
    }
}

pub open spec fn held_view(held: Seq<Vec<isize>>) -> Seq<Seq<isize>> {
    Seq::new(held.len(), |i: int| held[i]@)
}

/// Picks the screen for one more window, as `best_screen` says.
fn pick_screen(screens: &[PixelRect], held: &Vec<Vec<isize>>) -> (r: Option<usize>)
    requires
        held@.len() == screens@.len(),
        all_fit(screens@),
        forall|i: int| 0 <= i < screens@.len() ==> (#[trigger] held@[i])@.len() <= 6,
    ensures
        match r {
            Some(i) => best_screen(screens@, held_view(held@), screens@.len()) == Some(i as int),
            None => best_screen(screens@, held_view(held@), screens@.len()) is None,
        },
{
    let ghost hv = held_view(held@);
    let mut best: Option<(usize, i64)> = None;
    let mut i: usize = 0;
    while i < screens.len()
        invariant
            i <= screens@.len(),
            hv == held_view(held@),
            held@.len() == screens@.len(),
            all_fit(screens@),
            forall|k: int| 0 <= k < screens@.len() ==> (#[trigger] held@[k])@.len() <= 6,
            match best {
                Some((b, area)) => best_screen(screens@, hv, i as nat) == Some(b as int) && area
                    == next_cell(screens@, hv, b as int),
                None => best_screen(screens@, hv, i as nat) is None,
            },
        decreases screens@.len() - i,
    {
        assert(hv[i as int] == held@[i as int]@);
        if held[i].len() < screen_capacity(screens[i]) {
            let area: i64 = smallest_cell_area(screens[i], held[i].len() + 1);
            let better = match best {
                Some((_, least)) => area > least,
                None => true,
            };
            if better {
                best = Some((i, area));
            }
        }
        i += 1;
    }
    match best {
        Some((b, _)) => Some(b),
        None => None,
    }
}

/// Spreads `windows` over the parking `screens` so that cells stay as large and even as
/// possible. The second part of the result holds the windows that found no room.
pub fn distribute_parking(screens: &[PixelRect], windows: &[isize]) -> (r: (
    Vec<(isize, PixelRect)>,
    Vec<isize>,
))
    requires
        all_fit(screens@),
    ensures
        r.0@ == placements_upto(screens@, spread(screens@, windows@).0, screens@.len()),
        r.1@ == spread(screens@, windows@).1,
{
    let mut held: Vec<Vec<isize>> = Vec::new();
    let mut s: usize = 0;
    while s < screens.len()
        invariant
            s <= screens@.len(),
            held@.len() == s,
            forall|i: int| 0 <= i < s ==> (#[trigger] held@[i])@ == Seq::<isize>::empty(),
        decreases screens@.len() - s,
    {
        held.push(Vec::new());
        s += 1;
    }
    let mut over: Vec<isize> = Vec::new();
    let mut k: usize = 0;
    proof {
        assert(windows@.take(0) =~= Seq::<isize>::empty());
        assert(held_view(held@) =~= spread(screens@, windows@.take(0)).0);
    }
    while k < windows.len()
        invariant
            k <= windows@.len(),
            held@.len() == screens@.len(),
            all_fit(screens@),
            held_view(held@) == spread(screens@, windows@.take(k as int)).0,
            over@ == spread(screens@, windows@.take(k as int)).1,
        decreases windows@.len() - k,
    {
        let ghost hv = held_view(held@);
        proof {
            law_spread_keeps_capacity(screens@, windows@.take(k as int));
            assert forall|i: int| 0 <= i < screens@.len() implies (#[trigger] held@[i])@.len()
                <= 6 by {
                assert(hv[i] == held@[i]@);
            }
            assert(windows@.take(k + 1).drop_last() =~= windows@.take(k as int));
            assert(windows@.take(k + 1).last() == windows@[k as int]);
            lemma_best_screen(screens@, hv, screens@.len());
        }
        match pick_screen(screens, &held) {
            Some(i) => {
                held[i].push(windows[k]);
                assert(held_view(held@) =~= hv.update(i as int, hv[i as int].push(windows@[k as int])));
            },
            None => {
                over.push(windows[k]);
            },
        }
        k += 1;
    }
    proof {
        assert(windows@.take(windows@.len() as int) =~= windows@);
        law_spread_keeps_capacity(screens@, windows@);
    }
    let ghost hv = held_view(held@);
    let mut out: Vec<(isize, PixelRect)> = Vec::new();
    let mut i: usize = 0;
    while i < screens.len()
        invariant
            i <= screens@.len(),
            hv == held_view(held@),
            held@.len() == screens@.len(),
            all_fit(screens@),
            forall|j: int| 0 <= j < screens@.len() ==> (#[trigger] hv[j]).len() <= capacity_of(
                screens@[j],
            ),
            out@ == placements_upto(screens@, hv, i as nat),
        decreases screens@.len() - i,
    {
        assert(hv[i as int] == held@[i as int]@);
        let n: usize = held[i].len();
        let cells = subdivide_for_count(screens[i], n);
        proof {
            lemma_cells_for_len(screens@[i as int], n as nat);
        }
        let ghost before = out@;
        let mut j: usize = 0;
        while j < n
            invariant
                i < screens@.len(),
                hv == held_view(held@),
                held@.len() == screens@.len(),
                hv[i as int] == held@[i as int]@,
                n == held@[i as int]@.len(),
                n <= cells@.len(),
                j <= n,
                cells@ == cells_for(screens@[i as int], n as nat),
                out@ == before + screen_placements(screens@[i as int], hv[i as int]).take(j as int),
            decreases n - j,
        {
            out.push((held[i][j], cells[j]));
            proof {
                let sp = screen_placements(screens@[i as int], hv[i as int]);
                assert(sp.take(j + 1) =~= sp.take(j as int).push(sp[j as int]));
            }
            j += 1;
        }
        proof {
            let sp = screen_placements(screens@[i as int], hv[i as int]);
            assert(sp.take(n as int) =~= sp);
        }
        i += 1;
    }
    (out, over)
}

/// The two rectangles have no pixel in common.
pub open spec fn apart(a: PixelRect, b: PixelRect) -> bool {
    forall|px: int, py: int| #[trigger] a.covers(px, py) ==> !b.covers(px, py)
}

/// No two of the screens have a pixel in common.
pub open spec fn all_apart(screens: Seq<PixelRect>) -> bool {
    forall|i: int, j: int|
        0 <= i < j < screens.len() ==> apart(#[trigger] screens[i], #[trigger] screens[j])
}

/// Every pixel of the rectangle lies on one of the first `n` screens.
pub open spec fn on_screens(rect: PixelRect, screens: Seq<PixelRect>, n: int) -> bool {
    forall|px: int, py: int| #[trigger]
        rect.covers(px, py) ==> exists|j: int| 0 <= j < n && #[trigger] screens[j].covers(px, py)
}

proof fn lemma_screen_placements(screen: PixelRect, held: Seq<isize>)
    requires
        screen.fits(),
        held.len() <= capacity_of(screen),
    ensures
        forall|k: int, px: int, py: int|
            0 <= k < held.len() && #[trigger] screen_placements(screen, held)[k].1.covers(px, py)
                ==> screen.covers(px, py),
        forall|k: int, l: int|
            0 <= k < l < held.len() ==> apart(
                (#[trigger] screen_placements(screen, held)[k]).1,
                (#[trigger] screen_placements(screen, held)[l]).1,
            ),
{
    let cells = cells_for(screen, held.len());
    law_cells_tile_the_region(screen, held.len());
    lemma_cells_for_len(screen, held.len());
    let placed = screen_placements(screen, held);
    assert forall|k: int, px: int, py: int|
        0 <= k < held.len() && #[trigger] placed[k].1.covers(px, py) implies screen.covers(
        px,
        py,
    ) by {
        assert(cells[k].covers(px, py));
    }
    assert forall|k: int, l: int| 0 <= k < l < held.len() implies apart(
        (#[trigger] placed[k]).1,
        (#[trigger] placed[l]).1,
    ) by {
        assert forall|px: int, py: int| #[trigger] placed[k].1.covers(px, py) implies !placed[l].1.covers(
            px,
            py,
        ) by {
            assert(cells[k].covers(px, py));
            if placed[l].1.covers(px, py) {
                assert(cells[l].covers(px, py));
            }
        }
    }
}

/// Every placement stays on the screens.
pub proof fn lemma_placements_on_screens(
    screens: Seq<PixelRect>,
    held: Seq<Seq<isize>>,
    n: nat,
)
    requires
        n <= screens.len() == held.len(),
        all_fit(screens),
        forall|i: int|
            0 <= i < screens.len() ==> (#[trigger] held[i]).len() <= capacity_of(screens[i]),
    ensures
        forall|k: int|
            0 <= k < placements_upto(screens, held, n).len() ==> on_screens(
                (#[trigger] placements_upto(screens, held, n)[k]).1,
                screens,
                n as int,
            ),
    decreases n,
{
    if n > 0 {
        lemma_placements_on_screens(screens, held, (n - 1) as nat);
        let before = placements_upto(screens, held, (n - 1) as nat);
        let here = screen_placements(screens[n - 1], held[n - 1]);
        let all = placements_upto(screens, held, n);
        lemma_screen_placements(screens[n - 1], held[n - 1]);
        assert(all =~= before + here);
        assert forall|k: int| 0 <= k < all.len() implies on_screens(
            (#[trigger] all[k]).1,
            screens,
            n as int,
        ) by {
            if k < before.len() {
                assert(all[k] == before[k]);
                assert(on_screens(before[k].1, screens, n - 1));
            } else {
                assert(all[k] == here[k - before.len()]);
                assert forall|px: int, py: int| #[trigger]
                    all[k].1.covers(px, py) implies exists|j: int|
                    0 <= j < n && #[trigger] screens[j].covers(px, py) by {
                    assert(here[k - before.len()].1.covers(px, py));
                    assert(screens[n - 1].covers(px, py));
                }
            }
        }
    }
}

proof fn lemma_placements_apart(screens: Seq<PixelRect>, held: Seq<Seq<isize>>, n: nat)
    requires
        n <= screens.len() == held.len(),
        all_fit(screens),
        all_apart(screens),
        forall|i: int|
            0 <= i < screens.len() ==> (#[trigger] held[i]).len() <= capacity_of(screens[i]),
    ensures
        forall|k: int|
            0 <= k < placements_upto(screens, held, n).len() ==> on_screens(
                (#[trigger] placements_upto(screens, held, n)[k]).1,
                screens,
                n as int,
            ),
        forall|k: int, l: int|
            0 <= k < l < placements_upto(screens, held, n).len() ==> apart(
                (#[trigger] placements_upto(screens, held, n)[k]).1,
                (#[trigger] placements_upto(screens, held, n)[l]).1,
            ),
    decreases n,
{
    if n > 0 {
        lemma_placements_apart(screens, held, (n - 1) as nat);
        let before = placements_upto(screens, held, (n - 1) as nat);
        let here = screen_placements(screens[n - 1], held[n - 1]);
        let all = placements_upto(screens, held, n);
        lemma_screen_placements(screens[n - 1], held[n - 1]);
        assert(all =~= before + here);
        lemma_placements_on_screens(screens, held, n);
        assert forall|k: int, l: int| 0 <= k < l < all.len() implies apart(
            (#[trigger] all[k]).1,
            (#[trigger] all[l]).1,
        ) by {
            if l < before.len() {
                assert(all[k] == before[k] && all[l] == before[l]);
            } else if k >= before.len() {
                assert(all[k] == here[k - before.len()] && all[l] == here[l - before.len()]);
            } else {
                assert(all[k] == before[k] && all[l] == here[l - before.len()]);
                assert forall|px: int, py: int| #[trigger]
                    all[k].1.covers(px, py) implies !all[l].1.covers(px, py) by {
                    assert(on_screens(before[k].1, screens, n - 1));
                    let j = choose|j: int|
                        0 <= j < n - 1 && #[trigger] screens[j].covers(px, py);
                    assert(apart(screens[j], screens[n - 1]));
                    if all[l].1.covers(px, py) {
                        assert(here[l - before.len()].1.covers(px, py));
                    }
                }
            }
        }
    }
}

/// Windows that are spread over screens stay on those screens and never overlap, provided that
/// the screens do not.
pub proof fn law_spread_windows_never_overlap(screens: Seq<PixelRect>, windows: Seq<isize>)
    requires
        all_fit(screens),
        all_apart(screens),
    ensures
        ({
            let placed = placements_upto(screens, spread(screens, windows).0, screens.len());
            &&& forall|k: int|
                0 <= k < placed.len() ==> on_screens(
                    (#[trigger] placed[k]).1,
                    screens,
                    screens.len() as int,
                )
            &&& forall|k: int, l: int|
                0 <= k < l < placed.len() ==> apart(
                    (#[trigger] placed[k]).1,
                    (#[trigger] placed[l]).1,
                )
        }),
{
    law_spread_keeps_capacity(screens, windows);
    lemma_placements_apart(screens, spread(screens, windows).0, screens.len());
}

} // verus!
