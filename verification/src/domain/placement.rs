//! Rectangles on the virtual desktop, and where a window was when it was registered.

use vstd::prelude::*;

verus! {

/// A rectangle in physical pixels. Coordinates may be negative (a monitor left of the primary).
#[derive(Clone, Copy, Debug, PartialEq, Eq, Structural)]
pub struct PixelRect {
    pub x: i32,
    pub y: i32,
    pub width: i32,
    pub height: i32,
}

/// Division that rounds toward zero.
pub open spec fn quotient(a: int, b: int) -> int {
    if a >= 0 {
        a / b
    } else {
        -((-a) / b)
    }
}

/// Division by a positive number that rounds to the nearest integer, halves away from zero.
pub open spec fn rounded(a: int, b: int) -> int {
    if a >= 0 {
        (2 * a + b) / (2 * b)
    } else {
        -((2 * (-a) + b) / (2 * b))
    }
}

/// The nearest value that an `i32` can hold.
pub open spec fn clamped(v: int) -> int {
    if v < i32::MIN {
        i32::MIN as int
    } else if v > i32::MAX {
        i32::MAX as int
    } else {
        v
    }
}

pub fn clamp_to_i32(v: i128) -> (r: i32)
    ensures
        r == clamped(v as int),
{
    if v < i32::MIN as i128 {
        i32::MIN
    } else if v > i32::MAX as i128 {
        i32::MAX
    } else {
        v as i32
    }
}

pub fn round_div(a: i128, b: i128) -> (r: i128)
    requires
        0 < b <= 0x1_0000_0000_0000,
        -0x4000_0000_0000_0000_0000_0000 <= a <= 0x4000_0000_0000_0000_0000_0000,
    ensures
        r == rounded(a as int, b as int),
{
    if a >= 0 {
        (2 * a + b) / (2 * b)
    } else {
        -((2 * (-a) + b) / (2 * b))
    }
}

impl PixelRect {
    /// The right and bottom edges can be written as pixel coordinates.
    pub open spec fn fits(self) -> bool {
        &&& i32::MIN <= self.x + self.width <= i32::MAX
        &&& i32::MIN <= self.y + self.height <= i32::MAX
    }

    /// The pixel at `(px, py)` lies inside.
    pub open spec fn covers(self, px: int, py: int) -> bool {
        &&& self.x <= px < self.x + self.width
        &&& self.y <= py < self.y + self.height
    }

    /// The two rectangles overlap on both axes.
    pub open spec fn meets(self, other: PixelRect) -> bool {
        &&& self.x < other.x + other.width
        &&& other.x < self.x + self.width
        &&& self.y < other.y + other.height
        &&& other.y < self.y + self.height
    }

    /// `inner` does not reach out of this rectangle.
    pub open spec fn encloses(self, inner: PixelRect) -> bool {
        &&& self.x <= inner.x
        &&& self.y <= inner.y
        &&& inner.x + inner.width <= self.x + self.width
        &&& inner.y + inner.height <= self.y + self.height
    }

    pub open spec fn mid_x(self) -> int {
        self.x + quotient(self.width as int, 2)
    }

    pub open spec fn mid_y(self) -> int {
        self.y + quotient(self.height as int, 2)
    }

    pub open spec fn area(self) -> int {
        self.width * self.height
    }

    pub fn new(x: i32, y: i32, width: i32, height: i32) -> (r: PixelRect)
        ensures
            r == (PixelRect { x, y, width, height }),
    {
        PixelRect { x, y, width, height }
    }

    pub fn right(&self) -> (r: i32)
        requires
            self.fits(),
        ensures
            r == self.x + self.width,
    {
        self.x + self.width
    }

    pub fn bottom(&self) -> (r: i32)
        requires
            self.fits(),
        ensures
            r == self.y + self.height,
    {
        self.y + self.height
    }

    pub fn center(&self) -> (r: (i32, i32))
        requires
            self.fits(),
        ensures
            r.0 == self.mid_x(),
            r.1 == self.mid_y(),
    {
        (self.x + self.width / 2, self.y + self.height / 2)
    }

    pub fn contains_point(&self, px: i32, py: i32) -> (r: bool)
        ensures
            r == self.covers(px as int, py as int),
    {
        self.contains_wide(px as i64, py as i64)
    }

    /// `contains_point` for coordinates that need not fit in an `i32`.
    pub fn contains_wide(&self, px: i64, py: i64) -> (r: bool)
        ensures
            r == self.covers(px as int, py as int),
    {
        self.x as i64 <= px && px < self.x as i64 + self.width as i64 && self.y as i64 <= py && py
            < self.y as i64 + self.height as i64
    }

    /// `center` without a bound on the rectangle.
    pub fn center_wide(&self) -> (r: (i64, i64))
        ensures
            r.0 == self.mid_x(),
            r.1 == self.mid_y(),
    {
        (self.x as i64 + (self.width / 2) as i64, self.y as i64 + (self.height / 2) as i64)
    }

    pub fn overlaps(&self, other: &PixelRect) -> (r: bool)
        ensures
            r == self.meets(*other),
    {
        (self.x as i64) < other.x as i64 + other.width as i64 && (other.x as i64) < self.x as i64
            + self.width as i64 && (self.y as i64) < other.y as i64 + other.height as i64 && (
        other.y as i64) < self.y as i64 + self.height as i64
    }

    pub fn area_wide(&self) -> (r: i64)
        ensures
            r == self.area(),
    {
        let w: i64 = self.width as i64;
        let h: i64 = self.height as i64;
        assert(-0x4000_0000_0000_0000 <= w * h <= 0x4000_0000_0000_0000) by (nonlinear_arith)
            requires
                -0x8000_0000 <= w <= 0x7fff_ffff,
                -0x8000_0000 <= h <= 0x7fff_ffff,
        ;
        w * h
    }
}

/// Two rectangles that meet share a pixel, where neither is empty.
pub proof fn law_meeting_is_sharing_a_pixel(a: PixelRect, b: PixelRect)
    requires
        a.width > 0,
        a.height > 0,
        b.width > 0,
        b.height > 0,
    ensures
        a.meets(b) <==> exists|px: int, py: int| a.covers(px, py) && b.covers(px, py),
{
    if a.meets(b) {
        let px: int = if a.x >= b.x {
            a.x as int
        } else {
            b.x as int
        };
        let py: int = if a.y >= b.y {
            a.y as int
        } else {
            b.y as int
        };
        assert(a.covers(px, py) && b.covers(px, py));
    }
}

pub open spec fn min_of(a: int, b: int) -> int {
    if a <= b {
        a
    } else {
        b
    }
}

pub open spec fn max_of(a: int, b: int) -> int {
    if a >= b {
        a
    } else {
        b
    }
}

/// The least left edge of the rectangles.
pub open spec fn left_most(rects: Seq<PixelRect>) -> int
    decreases rects.len(),
{
    if rects.len() <= 1 {
        rects[0].x as int
    } else {
        min_of(left_most(rects.drop_last()), rects.last().x as int)
    }
}

pub open spec fn top_most(rects: Seq<PixelRect>) -> int
    decreases rects.len(),
{
    if rects.len() <= 1 {
        rects[0].y as int
    } else {
        min_of(top_most(rects.drop_last()), rects.last().y as int)
    }
}

pub open spec fn right_most(rects: Seq<PixelRect>) -> int
    decreases rects.len(),
{
    if rects.len() <= 1 {
        rects[0].x + rects[0].width
    } else {
        max_of(right_most(rects.drop_last()), rects.last().x + rects.last().width)
    }
}

pub open spec fn bottom_most(rects: Seq<PixelRect>) -> int
    decreases rects.len(),
{
    if rects.len() <= 1 {
        rects[0].y + rects[0].height
    } else {
        max_of(bottom_most(rects.drop_last()), rects.last().y + rects.last().height)
    }
}

/// The smallest rectangle around all of `rects`; a side longer than an `i32` holds is cut to
/// the longest that it does.
pub open spec fn bounds_of(rects: Seq<PixelRect>) -> Option<PixelRect> {
    if rects.len() == 0 {
        None
    } else {
        Some(
            PixelRect {
                x: left_most(rects) as i32,
                y: top_most(rects) as i32,
                width: clamped(right_most(rects) - left_most(rects)) as i32,
                height: clamped(bottom_most(rects) - top_most(rects)) as i32,
            },
        )
    }
}

pub fn bounding_rect(rects: &[PixelRect]) -> (r: Option<PixelRect>)
    ensures
        r == bounds_of(rects@),
{
    if rects.len() == 0 {
        return None;
    }
    let mut left: i64 = rects[0].x as i64;
    let mut top: i64 = rects[0].y as i64;
    let mut right: i64 = rects[0].x as i64 + rects[0].width as i64;
    let mut bottom: i64 = rects[0].y as i64 + rects[0].height as i64;
    let mut i: usize = 1;
    while i < rects.len()
        invariant
            1 <= i <= rects@.len(),
            left == left_most(rects@.take(i as int)),
            top == top_most(rects@.take(i as int)),
            right == right_most(rects@.take(i as int)),
            bottom == bottom_most(rects@.take(i as int)),
            i32::MIN <= left <= i32::MAX,
            i32::MIN <= top <= i32::MAX,
            -0x1_0000_0000 <= right <= 0x1_0000_0000,
            -0x1_0000_0000 <= bottom <= 0x1_0000_0000,
        decreases rects@.len() - i,
    {
        let rect = rects[i];
        proof {
            assert(rects@.take(i + 1).drop_last() =~= rects@.take(i as int));
            assert(rects@.take(i + 1).last() == rect);
        }
        if (rect.x as i64) < left {
            left = rect.x as i64;
        }
        if (rect.y as i64) < top {
            top = rect.y as i64;
        }
        if rect.x as i64 + rect.width as i64 > right {
            right = rect.x as i64 + rect.width as i64;
        }
        if rect.y as i64 + rect.height as i64 > bottom {
            bottom = rect.y as i64 + rect.height as i64;
        }
        i += 1;
    }
    assert(rects@.take(rects@.len() as int) =~= rects@);
    Some(
        PixelRect {
            x: left as i32,
            y: top as i32,
            width: clamp_to_i32((right - left) as i128),
            height: clamp_to_i32((bottom - top) as i128),
        },
    )
}

/// The rectangle around a single one is that one.
pub proof fn lemma_bounds_of_one(rect: PixelRect)
    ensures
        bounds_of(seq![rect]) == Some(rect),
{
}

/// `v` scaled from a length `from` to a length `to`; an empty source scales to the whole target.
pub open spec fn scaled_offset(v: int, from: int, to: int) -> int {
    if from <= 0 {
        0
    } else {
        rounded(v * to, from)
    }
}

pub open spec fn scaled_length(v: int, from: int, to: int) -> int {
    if from <= 0 {
        to
    } else {
        rounded(v * to, from)
    }
}

/// `rect` as it lies in `source`, carried over to `target`, each axis scaled on its own.
pub open spec fn mapped(rect: PixelRect, source: PixelRect, target: PixelRect) -> PixelRect {
    PixelRect {
        x: clamped(
            target.x + scaled_offset(rect.x - source.x, source.width as int, target.width as int),
        ) as i32,
        y: clamped(
            target.y + scaled_offset(rect.y - source.y, source.height as int, target.height as int),
        ) as i32,
        width: clamped(
            scaled_length(rect.width as int, source.width as int, target.width as int),
        ) as i32,
        height: clamped(
            scaled_length(rect.height as int, source.height as int, target.height as int),
        ) as i32,
    }
}

fn scale(v: i64, from: i32, to: i32) -> (r: i128)
    requires
        from > 0,
        -0x1_0000_0000 <= v <= 0x1_0000_0000,
    ensures
        r == rounded(v * to, from as int),
        -0x1_0000_0000_0000_0000 <= r <= 0x1_0000_0000_0000_0000,
{
    assert(-0x8000_0000_0000_0000 <= v * to <= 0x8000_0000_0000_0000) by (nonlinear_arith)
        requires
            -0x1_0000_0000 <= v <= 0x1_0000_0000,
            -0x8000_0000 <= to <= 0x7fff_ffff,
    ;
    let product: i128 = v as i128 * to as i128;
    let r = round_div(product, from as i128);
    proof {
        lemma_rounded_bounded(product as int, from as int);
    }
    r
}

proof fn lemma_rounded_bounded(a: int, b: int)
    requires
        b > 0,
    ensures
        a >= 0 ==> 0 <= rounded(a, b) <= a + 1,
        a < 0 ==> a - 1 <= rounded(a, b) <= 0,
{
    let m = if a >= 0 {
        a
    } else {
        -a
    };
    assert(0 <= (2 * m + b) / (2 * b) <= m + 1) by (nonlinear_arith)
        requires
            b > 0,
            m >= 0,
    ;
}

pub fn affine_map(rect: PixelRect, source: PixelRect, target: PixelRect) -> (r: PixelRect)
    ensures
        r == mapped(rect, source, target),
{
    let dx: i128 = if source.width <= 0 {
        0
    } else {
        scale(rect.x as i64 - source.x as i64, source.width, target.width)
    };
    let dy: i128 = if source.height <= 0 {
        0
    } else {
        scale(rect.y as i64 - source.y as i64, source.height, target.height)
    };
    let width: i128 = if source.width <= 0 {
        target.width as i128
    } else {
        scale(rect.width as i64, source.width, target.width)
    };
    let height: i128 = if source.height <= 0 {
        target.height as i128
    } else {
        scale(rect.height as i64, source.height, target.height)
    };
    PixelRect {
        x: clamp_to_i32(target.x as i128 + dx),
        y: clamp_to_i32(target.y as i128 + dy),
        width: clamp_to_i32(width),
        height: clamp_to_i32(height),
    }
}

/// A rectangle carried over from its own bounds lands exactly on the target.
pub proof fn lemma_map_own_bounds(rect: PixelRect, target: PixelRect)
    ensures
        mapped(rect, rect, target) == target,
{
    assert forall|a: int, to: int| a > 0 implies #[trigger] rounded(a * to, a) == to by {
        lemma_rounded_exact(a, to);
    }
    assert forall|a: int, to: int| a > 0 implies #[trigger] rounded(0 * to, a) == 0 by {
        lemma_rounded_exact(a, 0);
    }
    assert(rect.width > 0 ==> rounded(0 * target.width, rect.width as int) == 0);
    assert(rect.height > 0 ==> rounded(0 * target.height, rect.height as int) == 0);
    assert(rect.width > 0 ==> rounded(rect.width * target.width, rect.width as int)
        == target.width);
    assert(rect.height > 0 ==> rounded(rect.height * target.height, rect.height as int)
        == target.height);
}

proof fn lemma_rounded_exact(b: int, k: int)
    requires
        b > 0,
    ensures
        rounded(b * k, b) == k,
{
    if k >= 0 {
        assert(b * k >= 0) by (nonlinear_arith)
            requires
                b > 0,
                k >= 0,
        ;
        assert((2 * (b * k) + b) / (2 * b) == k) by (nonlinear_arith)
            requires
                b > 0,
                k >= 0,
        ;
    } else {
        let m = -k;
        assert(b * k < 0) by (nonlinear_arith)
            requires
                b > 0,
                k < 0,
        ;
        assert(-(b * k) == b * m) by (nonlinear_arith)
            requires
                m == -k,
        ;
        assert((2 * (b * m) + b) / (2 * b) == m) by (nonlinear_arith)
            requires
                b > 0,
                m > 0,
        ;
    }
}

/// How many parts of a monitor's width or height make up the whole of it: fractions of a work
/// area are kept as whole numbers of such parts.
pub const NORMALIZED_UNIT: i64 = 1_000_000_000;

/// A rectangle as fractions of a work area, in parts of [`NORMALIZED_UNIT`].
#[derive(Clone, Copy, Debug, PartialEq, Eq, Structural)]
pub struct NormalizedRect {
    pub x: i64,
    pub y: i64,
    pub width: i64,
    pub height: i64,
}

/// Which fraction of `whole` the length `part` is, in parts of the unit; nothing of an empty one.
pub open spec fn fraction(part: int, whole: int) -> int {
    if whole <= 0 {
        0
    } else {
        rounded(part * NORMALIZED_UNIT, whole)
    }
}

/// The length that a fraction of `whole` is.
pub open spec fn fraction_length(v: int, whole: int) -> int {
    rounded(v * whole, NORMALIZED_UNIT as int)
}

pub open spec fn normalized(rect: PixelRect, area: PixelRect) -> NormalizedRect {
    NormalizedRect {
        x: fraction(rect.x - area.x, area.width as int) as i64,
        y: fraction(rect.y - area.y, area.height as int) as i64,
        width: fraction(rect.width as int, area.width as int) as i64,
        height: fraction(rect.height as int, area.height as int) as i64,
    }
}

pub open spec fn denormalized(rect: NormalizedRect, area: PixelRect) -> PixelRect {
    PixelRect {
        x: clamped(area.x + fraction_length(rect.x as int, area.width as int)) as i32,
        y: clamped(area.y + fraction_length(rect.y as int, area.height as int)) as i32,
        width: clamped(fraction_length(rect.width as int, area.width as int)) as i32,
        height: clamped(fraction_length(rect.height as int, area.height as int)) as i32,
    }
}

fn fraction_of(part: i64, whole: i32) -> (r: i64)
    requires
        -0x1_0000_0000 <= part <= 0x1_0000_0000,
    ensures
        r == fraction(part as int, whole as int),
{
    if whole <= 0 {
        return 0;
    }
    assert(NORMALIZED_UNIT == 1_000_000_000);
    let product: i128 = part as i128 * 1_000_000_000;
    proof {
        lemma_rounded_bounded(product as int, whole as int);
    }
    round_div(product, whole as i128) as i64
}

fn length_of(v: i64, whole: i32) -> (r: i128)
    ensures
        r == fraction_length(v as int, whole as int),
        -0x1_0000_0000_0000_0000_0000_0000 <= r <= 0x1_0000_0000_0000_0000_0000_0000,
{
    assert(-0x4000_0000_0000_0000_0000_0000 <= v * whole <= 0x4000_0000_0000_0000_0000_0000)
        by (nonlinear_arith)
        requires
            -0x8000_0000_0000_0000 <= v <= 0x7fff_ffff_ffff_ffff,
            -0x8000_0000 <= whole <= 0x7fff_ffff,
    ;
    let product: i128 = v as i128 * whole as i128;
    proof {
        lemma_rounded_bounded(product as int, NORMALIZED_UNIT as int);
    }
    round_div(product, NORMALIZED_UNIT as i128)
}

/// `rect` as fractions of the work area `area`.
pub fn normalize(rect: PixelRect, area: PixelRect) -> (r: NormalizedRect)
    ensures
        r == normalized(rect, area),
{
    NormalizedRect {
        x: fraction_of(rect.x as i64 - area.x as i64, area.width),
        y: fraction_of(rect.y as i64 - area.y as i64, area.height),
        width: fraction_of(rect.width as i64, area.width),
        height: fraction_of(rect.height as i64, area.height),
    }
}

/// The pixels that the fractions `rect` of the work area `area` stand for.
pub fn denormalize(rect: NormalizedRect, area: PixelRect) -> (r: PixelRect)
    ensures
        r == denormalized(rect, area),
{
    PixelRect {
        x: clamp_to_i32(area.x as i128 + length_of(rect.x, area.width)),
        y: clamp_to_i32(area.y as i128 + length_of(rect.y, area.height)),
        width: clamp_to_i32(length_of(rect.width, area.width)),
        height: clamp_to_i32(length_of(rect.height, area.height)),
    }
}

/// A rounded quotient is off by half a divisor at most.
proof fn lemma_rounded_near(a: int, b: int)
    requires
        b > 0,
    ensures
        -b <= 2 * (rounded(a, b) * b) - 2 * a <= b,
{
    let m = if a >= 0 {
        a
    } else {
        -a
    };
    let t = (2 * m + b) / (2 * b);
    assert(2 * (t * b) <= 2 * m + b < 2 * (t * b) + 2 * b) by (nonlinear_arith)
        requires
            b > 0,
            t == (2 * m + b) / (2 * b),
    ;
    assert((-t) * b == -(t * b)) by (nonlinear_arith);
}

/// What lies less than half a divisor off a multiple is rounded to it.
proof fn lemma_rounded_is(a: int, b: int, k: int)
    requires
        b > 0,
        -b < 2 * a - 2 * (k * b) < b,
    ensures
        rounded(a, b) == k,
{
    if a >= 0 {
        assert((2 * a + b) / (2 * b) == k) by (nonlinear_arith)
            requires
                b > 0,
                2 * (k * b) < 2 * a + b < 2 * (k * b) + 2 * b,
        ;
    } else {
        let m = -a;
        let n = -k;
        assert(n * b == -(k * b)) by (nonlinear_arith)
            requires
                n == -k,
        ;
        assert((2 * m + b) / (2 * b) == n) by (nonlinear_arith)
            requires
                b > 0,
                2 * (n * b) < 2 * m + b < 2 * (n * b) + 2 * b,
        ;
    }
}

proof fn lemma_fraction_round_trip(part: int, whole: int)
    requires
        0 < whole < NORMALIZED_UNIT,
    ensures
        fraction_length(fraction(part, whole), whole) == part,
{
    let q = fraction(part, whole);
    lemma_rounded_near(part * NORMALIZED_UNIT, whole);
    lemma_rounded_is(q * whole, NORMALIZED_UNIT as int, part);
}

proof fn lemma_fraction_fits(part: int, whole: int)
    requires
        -0x1_0000_0000 <= part <= 0x1_0000_0000,
    ensures
        i64::MIN <= fraction(part, whole) <= i64::MAX,
{
    if whole > 0 {
        lemma_rounded_bounded(part * NORMALIZED_UNIT, whole);
    }
}

/// A place that is kept as fractions of a work area comes back to the pixel, as long as the area
/// is no larger than the fractions are fine.
pub proof fn law_place_survives_as_fractions(rect: PixelRect, area: PixelRect)
    requires
        0 < area.width < NORMALIZED_UNIT,
        0 < area.height < NORMALIZED_UNIT,
    ensures
        denormalized(normalized(rect, area), area) == rect,
{
    lemma_fraction_round_trip(rect.x - area.x, area.width as int);
    lemma_fraction_round_trip(rect.y - area.y, area.height as int);
    lemma_fraction_round_trip(rect.width as int, area.width as int);
    lemma_fraction_round_trip(rect.height as int, area.height as int);
    lemma_fraction_fits(rect.x - area.x, area.width as int);
    lemma_fraction_fits(rect.y - area.y, area.height as int);
    lemma_fraction_fits(rect.width as int, area.width as int);
    lemma_fraction_fits(rect.height as int, area.height as int);
}

/// Whether a window was shown as usual, filling its monitor, or minimized.
#[derive(Clone, Copy, Debug, PartialEq, Eq, Structural)]
pub enum SavedShowState {
    Normal,
    Maximized,
    Minimized,
}

/// Where a registered window belongs on the main screen.
#[derive(Clone, Debug)]
pub struct SavedPlacement {
    pub monitor_id: String,
    pub main_monitor_index: usize,
    pub normalized_rect: NormalizedRect,
    pub physical_rect_at_capture: PixelRect,
    pub show_state: SavedShowState,
}

/// The bounds of some rectangles enclose each of them, and every edge of them is the edge of one.
pub proof fn law_bounds_enclose_tightly(rects: Seq<PixelRect>, i: int)
    requires
        0 <= i < rects.len(),
    ensures
        left_most(rects) <= rects[i].x,
        top_most(rects) <= rects[i].y,
        rects[i].x + rects[i].width <= right_most(rects),
        rects[i].y + rects[i].height <= bottom_most(rects),
        exists|k: int| 0 <= k < rects.len() && left_most(rects) == (#[trigger] rects[k]).x,
        exists|k: int| 0 <= k < rects.len() && top_most(rects) == (#[trigger] rects[k]).y,
        exists|k: int|
            0 <= k < rects.len() && right_most(rects) == (#[trigger] rects[k]).x + rects[k].width,
        exists|k: int|
            0 <= k < rects.len() && bottom_most(rects) == (#[trigger] rects[k]).y
                + rects[k].height,
        right_most(rects) - left_most(rects) <= i32::MAX && bottom_most(rects) - top_most(rects)
            <= i32::MAX && i32::MIN <= right_most(rects) - left_most(rects) && i32::MIN
            <= bottom_most(rects) - top_most(rects) ==> bounds_of(rects) is Some && bounds_of(
            rects,
        )->0.encloses(rects[i]),
    decreases rects.len(),
{
    let last = rects[rects.len() - 1];
    if rects.len() > 1 {
        let rest = rects.drop_last();
        let j = if i < rest.len() {
            i
        } else {
            0
        };
        law_bounds_enclose_tightly(rest, j);
        let a = choose|k: int| 0 <= k < rest.len() && left_most(rest) == (#[trigger] rest[k]).x;
        let b = choose|k: int| 0 <= k < rest.len() && top_most(rest) == (#[trigger] rest[k]).y;
        let c = choose|k: int|
            0 <= k < rest.len() && right_most(rest) == (#[trigger] rest[k]).x + rest[k].width;
        let d = choose|k: int|
            0 <= k < rest.len() && bottom_most(rest) == (#[trigger] rest[k]).y + rest[k].height;
        assert(rects[a] == rest[a] && rects[b] == rest[b] && rects[c] == rest[c] && rects[d]
            == rest[d]);
        assert(left_most(rects) == rects[a].x || left_most(rects) == last.x);
        assert(top_most(rects) == rects[b].y || top_most(rects) == last.y);
        assert(right_most(rects) == rects[c].x + rects[c].width || right_most(rects) == last.x
            + last.width);
        assert(bottom_most(rects) == rects[d].y + rects[d].height || bottom_most(rects) == last.y
            + last.height);
        if i < rest.len() {
            assert(rest[i] == rects[i]);
        }
    } else {
        assert(rects[0] == last);
    }
}

/// Rounding gives a nearest integer, and treats both signs alike.
pub proof fn law_rounding_is_to_the_nearest(a: int, b: int)
    requires
        b > 0,
    ensures
        -b <= 2 * (rounded(a, b) * b - a) <= b,
        rounded(-a, b) == -rounded(a, b),
{
    let m = if a >= 0 {
        a
    } else {
        -a
    };
    let q = (2 * m + b) / (2 * b);
    assert(q * (2 * b) <= 2 * m + b < q * (2 * b) + 2 * b) by (nonlinear_arith)
        requires
            b > 0,
            m >= 0,
            q == (2 * m + b) / (2 * b),
    ;
    assert(q * (2 * b) == 2 * (q * b)) by (nonlinear_arith);
    assert((-q) * b == -(q * b)) by (nonlinear_arith);
    if a == 0 {
        assert(q == 0) by (nonlinear_arith)
            requires
                q == b / (2 * b),
                b > 0,
        ;
    }
}

/// A rectangle that is carried over keeps its proportions: on each axis its place and its size are
/// to the target what they were to the source, to the nearest pixel. From an empty source the whole
/// target is taken.
pub proof fn law_mapping_keeps_the_proportions(
    rect: PixelRect,
    source: PixelRect,
    target: PixelRect,
)
    ensures
        ({
            let m = mapped(rect, source, target);
            &&& source.width > 0 && i32::MIN < m.x < i32::MAX ==> -source.width <= 2 * ((m.x
                - target.x) * source.width - (rect.x - source.x) * target.width) <= source.width
            &&& source.width > 0 && i32::MIN < m.width < i32::MAX ==> -source.width <= 2 * (m.width
                * source.width - rect.width * target.width) <= source.width
            &&& source.height > 0 && i32::MIN < m.y < i32::MAX ==> -source.height <= 2 * ((m.y
                - target.y) * source.height - (rect.y - source.y) * target.height) <= source.height
            &&& source.height > 0 && i32::MIN < m.height < i32::MAX ==> -source.height <= 2 * (
            m.height * source.height - rect.height * target.height) <= source.height
            &&& source.width <= 0 ==> m.x == target.x && m.width == target.width
            &&& source.height <= 0 ==> m.y == target.y && m.height == target.height
        }),
{
    if source.width > 0 {
        law_rounding_is_to_the_nearest((rect.x - source.x) * target.width, source.width as int);
        law_rounding_is_to_the_nearest(rect.width * target.width, source.width as int);
    }
    if source.height > 0 {
        law_rounding_is_to_the_nearest((rect.y - source.y) * target.height, source.height as int);
        law_rounding_is_to_the_nearest(rect.height * target.height, source.height as int);
    }
}

/// The middle of a rectangle is as far from one edge as from the other, to a pixel.
pub proof fn law_middle_is_in_the_middle(rect: PixelRect)
    ensures
        -1 <= (rect.mid_x() - rect.x) - (rect.x + rect.width - rect.mid_x()) <= 1,
        -1 <= (rect.mid_y() - rect.y) - (rect.y + rect.height - rect.mid_y()) <= 1,
{
}

} // verus!
