//! Putting a window back on the main screen.

use repodeck::application::main_placement::{
    resolve_main_restore, MIN_WINDOW_HEIGHT, MIN_WINDOW_WIDTH,
};
use repodeck::domain::monitor::MonitorInfo;
use repodeck::domain::placement::{NormalizedRect, PixelRect, SavedPlacement, SavedShowState};

/// A share of a monitor's side, in billionths.
fn unit(share: f64) -> i64 {
    (share * 1_000_000_000.0).round() as i64
}

fn monitor(device_name: &str, x: i32) -> MonitorInfo {
    MonitorInfo {
        handle: 0,
        device_name: device_name.to_string(),
        bounds_px: PixelRect::new(x, 0, 1920, 1080),
        work_area_px: PixelRect::new(x, 0, 1920, 1032),
        dpi_x: 96,
        dpi_y: 96,
        is_primary: x == 0,
    }
}

fn saved(
    main_monitor_index: usize,
    rect: NormalizedRect,
    show_state: SavedShowState,
) -> SavedPlacement {
    SavedPlacement {
        monitor_id: "MAIN1".to_string(),
        main_monitor_index,
        normalized_rect: rect,
        physical_rect_at_capture: PixelRect::new(0, 0, 800, 600),
        show_state,
    }
}

#[test]
fn out_of_range_index_falls_back_to_first_live_main_monitor() {
    let live = vec![monitor("MAIN1", 0)];
    let main_ids = vec!["MAIN1".to_string()];
    let placement = saved(
        5, // out of range
        NormalizedRect {
            x: unit(0.1),
            y: unit(0.1),
            width: unit(0.5),
            height: unit(0.5),
        },
        SavedShowState::Normal,
    );

    let outcome = resolve_main_restore(&placement, &live, &main_ids).unwrap();
    assert_eq!(outcome.rect.x, 192);
}

#[test]
fn below_minimum_size_is_bumped_up() {
    let live = vec![monitor("MAIN1", 0)];
    let main_ids = vec!["MAIN1".to_string()];
    let placement = saved(
        0,
        NormalizedRect {
            x: unit(0.0),
            y: unit(0.0),
            width: unit(0.01),
            height: unit(0.01),
        },
        SavedShowState::Normal,
    );

    let outcome = resolve_main_restore(&placement, &live, &main_ids).unwrap();
    assert_eq!(outcome.rect.width, MIN_WINDOW_WIDTH);
    assert_eq!(outcome.rect.height, MIN_WINDOW_HEIGHT);
}

#[test]
fn fully_offscreen_saved_rect_is_clamped_back_on_screen() {
    let live = vec![monitor("MAIN1", 0)];
    let main_ids = vec!["MAIN1".to_string()];
    let placement = saved(
        0,
        NormalizedRect {
            x: unit(1.5),
            y: unit(0.0),
            width: unit(0.3),
            height: unit(0.3),
        },
        SavedShowState::Normal,
    );

    let outcome = resolve_main_restore(&placement, &live, &main_ids).unwrap();
    assert!(outcome.rect.x < live[0].work_area_px.right());
}

#[test]
fn minimized_show_state_restores_as_normal() {
    let live = vec![monitor("MAIN1", 0)];
    let main_ids = vec!["MAIN1".to_string()];
    let placement = saved(
        0,
        NormalizedRect {
            x: unit(0.1),
            y: unit(0.1),
            width: unit(0.3),
            height: unit(0.3),
        },
        SavedShowState::Minimized,
    );

    let outcome = resolve_main_restore(&placement, &live, &main_ids).unwrap();
    assert_eq!(outcome.show_state, SavedShowState::Normal);
}

#[test]
fn maximized_show_state_stays_maximized() {
    let live = vec![monitor("MAIN1", 0)];
    let main_ids = vec!["MAIN1".to_string()];
    let placement = saved(
        0,
        NormalizedRect {
            x: unit(0.1),
            y: unit(0.1),
            width: unit(0.3),
            height: unit(0.3),
        },
        SavedShowState::Maximized,
    );

    let outcome = resolve_main_restore(&placement, &live, &main_ids).unwrap();
    assert_eq!(outcome.show_state, SavedShowState::Maximized);
}

#[test]
fn total_main_monitor_loss_returns_none() {
    let live = vec![monitor("OTHER", 0)];
    let main_ids = vec!["MAIN1".to_string()];
    let placement = saved(
        0,
        NormalizedRect {
            x: unit(0.1),
            y: unit(0.1),
            width: unit(0.3),
            height: unit(0.3),
        },
        SavedShowState::Normal,
    );

    assert!(resolve_main_restore(&placement, &live, &main_ids).is_none());
}
