//! Where the quick switcher pops up.

use repodeck::application::popup_placement::resolve_popup_position;
use repodeck::domain::config::PopupLocation;
use repodeck::domain::monitor::MonitorInfo;
use repodeck::domain::placement::PixelRect;

fn monitor(device_name: &str, x: i32, is_primary: bool) -> MonitorInfo {
    MonitorInfo {
        handle: 0,
        device_name: device_name.to_string(),
        bounds_px: PixelRect::new(x, 0, 1920, 1080),
        work_area_px: PixelRect::new(x, 0, 1920, 1032),
        dpi_x: 96,
        dpi_y: 96,
        is_primary,
    }
}

#[test]
fn centers_on_the_monitor_containing_the_cursor() {
    let monitors = vec![monitor("MAIN", 0, true), monitor("SIDE", 1920, false)];

    let (x, y) = resolve_popup_position(
        PopupLocation::CursorMonitorCenter,
        (2500, 100), // inside SIDE
        &monitors,
        &["MAIN".to_string()],
        (480, 560),
    );
    assert_eq!((x, y), (2880 - 240, 540 - 280));
}

#[test]
fn falls_back_to_primary_when_cursor_monitor_is_gone() {
    let monitors = vec![monitor("MAIN", 0, true)];

    let (x, y) = resolve_popup_position(
        PopupLocation::CursorMonitorCenter,
        (5000, 100), // not on any monitor
        &monitors,
        &["MAIN".to_string()],
        (480, 560),
    );

    assert_eq!((x, y), (960 - 240, 540 - 280));
}

#[test]
fn main_monitor_center_falls_back_to_primary_when_main_is_gone() {
    let monitors = vec![monitor("OTHER", 0, true)];

    let (x, y) = resolve_popup_position(
        PopupLocation::MainMonitorCenter,
        (0, 0),
        &monitors,
        &["MAIN-GONE".to_string()],
        (480, 560),
    );

    assert_eq!((x, y), (960 - 240, 540 - 280));
}

#[test]
fn empty_monitor_list_does_not_panic() {
    assert_eq!(
        resolve_popup_position(
            PopupLocation::CursorMonitorCenter,
            (0, 0),
            &[],
            &[],
            (480, 560)
        ),
        (0, 0)
    );
}
