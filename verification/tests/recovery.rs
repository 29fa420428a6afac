//! Bringing every window back to the main screen.

use repodeck::application::recovery_service::plan_recovery_tiles;
use repodeck::domain::placement::PixelRect;

#[test]
fn tiles_up_to_four_windows_in_a_single_row() {
    let work_area = PixelRect::new(0, 0, 1920, 1080);
    let tiles = plan_recovery_tiles(3, work_area);
    assert_eq!(tiles.len(), 3);
    for tile in &tiles {
        assert!(tile.right() <= work_area.right());
        assert!(tile.bottom() <= work_area.bottom());
    }
    assert_eq!(tiles[0].y, tiles[1].y, "single row");
}

#[test]
fn tiles_more_than_four_windows_into_two_rows() {
    let work_area = PixelRect::new(0, 0, 1920, 1080);
    let tiles = plan_recovery_tiles(6, work_area);
    assert_eq!(tiles.len(), 6);
    let distinct_rows: std::collections::HashSet<i32> = tiles.iter().map(|t| t.y).collect();
    assert_eq!(distinct_rows.len(), 2);
    for tile in &tiles {
        assert!(tile.right() <= work_area.right());
        assert!(tile.bottom() <= work_area.bottom());
    }
}

#[test]
fn zero_windows_yields_no_tiles() {
    assert!(plan_recovery_tiles(0, PixelRect::new(0, 0, 1920, 1080)).is_empty());
}
