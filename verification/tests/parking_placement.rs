//! Shrinking windows into a parking cell.

use repodeck::application::parking_placement::{
    plan_park_into_slot, ParkPlan, MIN_PARKED_HEIGHT, MIN_PARKED_WIDTH,
};
use repodeck::domain::placement::PixelRect;

#[test]
fn shrinks_two_side_by_side_windows_into_one_slot() {
    let main_rects = vec![
        PixelRect::new(0, 0, 960, 1032),
        PixelRect::new(960, 0, 960, 1032),
    ];
    let slot_rect = PixelRect::new(2000, 100, 408, 266);

    let plan = plan_park_into_slot(&main_rects, slot_rect);

    let ParkPlan::ShrinkToFit(rects) = plan else {
        panic!("expected ShrinkToFit");
    };
    assert_eq!(rects.len(), 2);
    for rect in &rects {
        assert!(rect.width >= MIN_PARKED_WIDTH);
        assert!(rect.height >= MIN_PARKED_HEIGHT);
    }
    assert!(rects[0].x < rects[1].x);
}

#[test]
fn below_minimum_size_minimizes_the_whole_workset() {
    let main_rects = vec![
        PixelRect::new(0, 0, 1920, 1080),
        PixelRect::new(1920, 0, 100, 100),
    ];
    let slot_rect = PixelRect::new(0, 0, 40, 30);

    let plan = plan_park_into_slot(&main_rects, slot_rect);

    assert_eq!(plan, ParkPlan::MinimizeWhole);
}

#[test]
fn empty_main_rects_yields_an_empty_plan() {
    assert_eq!(
        plan_park_into_slot(&[], PixelRect::new(0, 0, 400, 300)),
        ParkPlan::ShrinkToFit(Vec::new())
    );
}
