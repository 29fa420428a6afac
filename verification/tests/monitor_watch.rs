//! Noticing that the monitors have changed.

use repodeck::application::monitor_watch_service::{
    compute_fingerprint, find_now_offscreen_windows,
};
use repodeck::domain::monitor::MonitorInfo;
use repodeck::domain::placement::{NormalizedRect, PixelRect, SavedPlacement, SavedShowState};
use repodeck::domain::workset::{
    ManagedWindow, ParkingPolicy, RepositoryKind, WindowMatcher, Workset,
};
use repodeck::ids::Uuid;
use repodeck::windowing::enumerate::TopLevelWindow;
use repodeck::windowing::matcher::PlainMatching;

fn fresh_id() -> Uuid {
    uuid::Uuid::new_v4().as_u128()
}

/// A share of a monitor's side, in billionths.
fn unit(share: f64) -> i64 {
    (share * 1_000_000_000.0).round() as i64
}

fn monitor(device_name: &str, bounds: PixelRect) -> MonitorInfo {
    MonitorInfo {
        handle: 0,
        device_name: device_name.to_string(),
        bounds_px: bounds,
        work_area_px: bounds,
        dpi_x: 96,
        dpi_y: 96,
        is_primary: false,
    }
}

#[test]
fn fingerprint_is_stable_regardless_of_input_order() {
    let a = monitor("A", PixelRect::new(0, 0, 1920, 1080));
    let b = monitor("B", PixelRect::new(1920, 0, 1920, 1080));

    assert_eq!(
        compute_fingerprint(&[a.clone(), b.clone()]),
        compute_fingerprint(&[b, a])
    );
}

#[test]
fn fingerprint_changes_when_bounds_change() {
    let a = monitor("A", PixelRect::new(0, 0, 1920, 1080));
    let a_moved = monitor("A", PixelRect::new(0, 0, 2560, 1440));

    assert_ne!(compute_fingerprint(&[a]), compute_fingerprint(&[a_moved]));
}

fn window_with(
    hwnd: isize,
    exe: &str,
    class: &str,
    title: &str,
    rect: PixelRect,
) -> TopLevelWindow {
    TopLevelWindow {
        hwnd,
        process_id: 1,
        executable_path: Some(String::from(exe)),
        window_class: class.to_string(),
        title: title.to_string(),
        rect_px: rect,
    }
}

fn workset_with_window(rect: PixelRect) -> Workset {
    let matcher = WindowMatcher {
        executable_path: String::from(r"C:\code.exe"),
        process_name: "code.exe".to_string(),
        window_class: "Chrome_WidgetWin_1".to_string(),
        registered_title: "repo - Visual Studio Code".to_string(),
        title_contains: None,
        title_regex: None,
    };
    let managed = ManagedWindow {
        id: fresh_id(),
        matcher,
        main_placement: SavedPlacement {
            monitor_id: "A".to_string(),
            main_monitor_index: 0,
            normalized_rect: NormalizedRect {
                x: unit(0.0),
                y: unit(0.0),
                width: unit(0.5),
                height: unit(0.5),
            },
            physical_rect_at_capture: rect,
            show_state: SavedShowState::Normal,
        },
        z_order: 0,
        launch_spec: None,
        minimize_when_parked: false,
    };
    Workset {
        id: fresh_id(),
        name: "test".to_string(),
        repository_path: String::from(r"D:\repo"),
        repository_kind: RepositoryKind::Git,
        color: "#fff".to_string(),
        sort_order: 0,
        direct_hotkey: None,
        parking_policy: ParkingPolicy::Auto,
        fullscreen_when_parked: false,
        windows: vec![managed],
        created_at: "2026-07-21T00:00:00Z".to_string(),
        updated_at: "2026-07-21T00:00:00Z".to_string(),
    }
}

#[test]
fn window_fully_inside_a_live_monitor_is_not_offscreen() {
    let rect = PixelRect::new(100, 100, 800, 600);
    let workset = workset_with_window(rect);
    let live = [window_with(
        1,
        r"C:\code.exe",
        "Chrome_WidgetWin_1",
        "repo - Visual Studio Code",
        rect,
    )];
    let monitors = [monitor("A", PixelRect::new(0, 0, 1920, 1080))];

    assert!(find_now_offscreen_windows(&PlainMatching {}, &[workset], &live, &monitors).is_empty());
}

#[test]
fn window_fully_outside_every_live_monitor_is_offscreen() {
    let rect = PixelRect::new(5000, 5000, 800, 600);
    let workset = workset_with_window(rect);
    let live = [window_with(
        1,
        r"C:\code.exe",
        "Chrome_WidgetWin_1",
        "repo - Visual Studio Code",
        rect,
    )];
    let monitors = [monitor("A", PixelRect::new(0, 0, 1920, 1080))];

    assert_eq!(
        find_now_offscreen_windows(&PlainMatching {}, &[workset], &live, &monitors),
        vec![1]
    );
}

#[test]
fn window_straddling_a_monitor_edge_is_not_offscreen() {
    let rect = PixelRect::new(1800, 0, 400, 400);
    let workset = workset_with_window(rect);
    let live = [window_with(
        1,
        r"C:\code.exe",
        "Chrome_WidgetWin_1",
        "repo - Visual Studio Code",
        rect,
    )];
    let monitors = [monitor("A", PixelRect::new(0, 0, 1920, 1080))];

    assert!(find_now_offscreen_windows(&PlainMatching {}, &[workset], &live, &monitors).is_empty());
}
