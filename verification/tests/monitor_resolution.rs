//! Finding and ordering monitors.

use repodeck::application::monitor_resolution::{
    find_live_monitor_by_stable_id, sort_monitors_reading_order,
};
use repodeck::domain::monitor::MonitorInfo;
use repodeck::domain::placement::PixelRect;

fn monitor(device_name: &str, x: i32, y: i32) -> MonitorInfo {
    MonitorInfo {
        handle: 0,
        device_name: device_name.to_string(),
        bounds_px: PixelRect::new(x, y, 1920, 1080),
        work_area_px: PixelRect::new(x, y, 1920, 1080),
        dpi_x: 96,
        dpi_y: 96,
        is_primary: false,
    }
}

#[test]
fn find_by_stable_id_matches_device_name() {
    let live = vec![monitor("A", 0, 0), monitor("B", 1920, 0)];
    assert_eq!(
        find_live_monitor_by_stable_id(&live, "B").map(|m| &m.device_name),
        Some(&"B".to_string())
    );
    assert!(find_live_monitor_by_stable_id(&live, "C").is_none());
}

#[test]
fn sorts_scrambled_monitors_into_reading_order() {
    let mut monitors = vec![
        monitor("bottom-right", 1920, 1080),
        monitor("top-left", 0, 0),
        monitor("top-right", 1920, 0),
        monitor("bottom-left", 0, 1080),
    ];

    sort_monitors_reading_order(&mut monitors);

    let order: Vec<&str> = monitors.iter().map(|m| m.device_name.as_str()).collect();
    assert_eq!(
        order,
        vec!["top-left", "top-right", "bottom-left", "bottom-right"]
    );
}

#[test]
fn sorts_negative_virtual_screen_coordinates() {
    let mut monitors = vec![monitor("primary", 0, 0), monitor("secondary", -1920, -1080)];

    sort_monitors_reading_order(&mut monitors);

    let order: Vec<&str> = monitors.iter().map(|m| m.device_name.as_str()).collect();
    assert_eq!(order, vec!["secondary", "primary"]);
}
