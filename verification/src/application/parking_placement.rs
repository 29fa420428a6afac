//! Shrinking windows into a parking cell, or minimizing them where they would become too small.

use vstd::prelude::*;

use crate::domain::placement;
use crate::domain::placement::PixelRect;

verus! {

/// The least size that a parked window is shown at.
pub const MIN_PARKED_WIDTH: i32 = 120;

pub const MIN_PARKED_HEIGHT: i32 = 68;

/// How far windows keep off the edges of their parking cell. Cells are filled to the edge.
pub const PARKING_SLOT_INSET_PX: i32 = 0;

#[derive(Debug, PartialEq, Eq)]
pub enum ParkPlan {
    /// One target rectangle per window, in the order given.
    ShrinkToFit(Vec<PixelRect>),
    MinimizeWhole,
}

/// What a slot leaves once the inset is taken off.
pub open spec fn usable(slot: PixelRect) -> PixelRect {
    PixelRect {
        width: placement::max_of(slot.width as int, 0) as i32,
        height: placement::max_of(slot.height as int, 0) as i32,
        ..slot
    }
}

/// The windows carried over from their common bounds into the slot.
pub open spec fn shrunk(rects: Seq<PixelRect>, slot: PixelRect) -> Seq<PixelRect> {
    Seq::new(
        rects.len(),
        |i: int| placement::mapped(rects[i], placement::bounds_of(rects)->0, usable(slot)),
    )
}

pub open spec fn too_small(rect: PixelRect) -> bool {
    rect.width < MIN_PARKED_WIDTH || rect.height < MIN_PARKED_HEIGHT
}

/// One of the windows would be shown too small.
pub open spec fn some_too_small(rects: Seq<PixelRect>) -> bool {
    exists|i: int| 0 <= i < rects.len() && too_small(#[trigger] rects[i])
}

/// Maps `main_rects` into `slot_rect`, each axis scaled on its own. Where one window would come
/// out too small, all of them are minimized: never some parked and some minimized.
pub fn plan_park_into_slot(main_rects: &[PixelRect], slot_rect: PixelRect) -> (r: ParkPlan)
    ensures
        match r {
            ParkPlan::ShrinkToFit(rects) => rects@ == shrunk(main_rects@, slot_rect)
                && !some_too_small(shrunk(main_rects@, slot_rect)),
            ParkPlan::MinimizeWhole => some_too_small(shrunk(main_rects@, slot_rect)),
        },
{
    let source = match placement::bounding_rect(main_rects) {
        Some(bounds) => bounds,
        None => {
            let none: Vec<PixelRect> = Vec::new();
            assert(none@ =~= shrunk(main_rects@, slot_rect));
            return ParkPlan::ShrinkToFit(none);
        },
    };
    let target = inset(slot_rect);
    let mut out: Vec<PixelRect> = Vec::new();
    let mut small = false;
    let mut i: usize = 0;
    while i < main_rects.len()
        invariant
            i <= main_rects@.len(),
            placement::bounds_of(main_rects@) == Some(source),
            target == usable(slot_rect),
            out@ == shrunk(main_rects@, slot_rect).take(i as int),
            small == some_too_small(out@),
        decreases main_rects@.len() - i,
    {
        let mapped = placement::affine_map(main_rects[i], source, target);
        let ghost before = out@;
        out.push(mapped);
        assert(out@ =~= shrunk(main_rects@, slot_rect).take(i + 1));
        let is_small = mapped.width < MIN_PARKED_WIDTH || mapped.height < MIN_PARKED_HEIGHT;
        proof {
            assert(out@[i as int] == mapped);
            assert(forall|j: int| 0 <= j < i ==> out@[j] == before[j]);
            if some_too_small(before) {
                let j = choose|j: int| 0 <= j < before.len() && too_small(#[trigger] before[j]);
                assert(too_small(out@[j]));
            }
        }
        small = small || is_small;
        i += 1;
    }
    assert(out@ =~= shrunk(main_rects@, slot_rect));
    if small {
        ParkPlan::MinimizeWhole
    } else {
        ParkPlan::ShrinkToFit(out)
    }
}

fn inset(rect: PixelRect) -> (r: PixelRect)
    ensures
        r == usable(rect),
{
    let px: i32 = PARKING_SLOT_INSET_PX;
    PixelRect::new(
        placement::clamp_to_i32(rect.x as i128 + px as i128),
        placement::clamp_to_i32(rect.y as i128 + px as i128),
        if rect.width < 0 {
            0
        } else {
            rect.width - 2 * px
        },
        if rect.height < 0 {
            0
        } else {
            rect.height - 2 * px
        },
    )
}

/// A lone window fills its cell exactly, or is minimized where the cell is too small.
pub proof fn law_lone_window_fills_its_cell(rect: PixelRect, slot: PixelRect)
    requires
        slot.width >= 0,
        slot.height >= 0,
    ensures
        shrunk(seq![rect], slot) == seq![slot],
        some_too_small(shrunk(seq![rect], slot)) <==> too_small(slot),
{
    placement::lemma_bounds_of_one(rect);
    placement::lemma_map_own_bounds(rect, usable(slot));
    assert(shrunk(seq![rect], slot) =~= seq![slot]);
    let s = shrunk(seq![rect], slot);
    if too_small(slot) {
        assert(too_small(s[0]));
    }
}

/// Windows are shown parked only where each has at least 120 by 68 pixels, and whenever each has.
pub proof fn law_parked_windows_are_large_enough(rects: Seq<PixelRect>)
    ensures
        !some_too_small(rects) <==> forall|i: int|
            0 <= i < rects.len() ==> (#[trigger] rects[i]).width >= 120 && rects[i].height >= 68,
{
    if !some_too_small(rects) {
        assert forall|i: int| 0 <= i < rects.len() implies (#[trigger] rects[i]).width >= 120
            && rects[i].height >= 68 by {
            assert(!too_small(rects[i]));
        }
    } else {
        let i = choose|i: int| 0 <= i < rects.len() && too_small(#[trigger] rects[i]);
        assert(!(rects[i].width >= 120 && rects[i].height >= 68));
    }
}

/// Parked windows keep their arrangement: each lies in the cell as it lay in the bounds of them all,
/// on each axis, to the nearest pixel.
pub proof fn law_parked_windows_keep_their_arrangement(
    rects: Seq<PixelRect>,
    slot: PixelRect,
    i: int,
)
    requires
        0 <= i < rects.len(),
        slot.width >= 0,
        slot.height >= 0,
    ensures
        shrunk(rects, slot).len() == rects.len(),
        ({
            let b = placement::bounds_of(rects)->0;
            let m = shrunk(rects, slot)[i];
            &&& b.width > 0 && i32::MIN < m.x < i32::MAX ==> -b.width <= 2 * ((m.x - slot.x)
                * b.width - (rects[i].x - b.x) * slot.width) <= b.width
            &&& b.width > 0 && i32::MIN < m.width < i32::MAX ==> -b.width <= 2 * (m.width * b.width
                - rects[i].width * slot.width) <= b.width
            &&& b.height > 0 && i32::MIN < m.y < i32::MAX ==> -b.height <= 2 * ((m.y - slot.y)
                * b.height - (rects[i].y - b.y) * slot.height) <= b.height
            &&& b.height > 0 && i32::MIN < m.height < i32::MAX ==> -b.height <= 2 * (m.height
                * b.height - rects[i].height * slot.height) <= b.height
        }),
{
    placement::law_mapping_keeps_the_proportions(
        rects[i],
        placement::bounds_of(rects)->0,
        usable(slot),
    );
}

} // verus!
