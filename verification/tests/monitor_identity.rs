//! Telling monitors apart when their names move.

use repodeck::application::monitor_identity::{
    apply_remap, plan_remap, refresh_device_paths, LiveMonitor, RenameMap,
};
use repodeck::domain::config::{
    AppConfig, PopupLocation, SortMode, UnknownWindowPolicy, UserSettings,
};
use repodeck::domain::hotkey::{HotkeyConfig, HotkeyModifier};
use repodeck::domain::monitor::{AutoSplit, SavedMonitor};
use repodeck::domain::placement::{NormalizedRect, PixelRect, SavedPlacement, SavedShowState};
use repodeck::domain::workset::{
    FixedParkingSlot, ManagedWindow, ParkingPolicy, RepositoryKind, SubScreen, WindowMatcher,
    Workset,
};
use repodeck::ids::Uuid;

fn fresh_id() -> Uuid {
    uuid::Uuid::new_v4().as_u128()
}

/// A share of a monitor's side, in billionths.
fn unit(share: f64) -> i64 {
    (share * 1_000_000_000.0).round() as i64
}

fn settings() -> UserSettings {
    UserSettings {
        quick_switcher_hotkey: HotkeyConfig {
            modifiers: vec![HotkeyModifier::Control, HotkeyModifier::Alt],
            virtual_key: 0x57,
        },
        cycle_next_key: 0x28,
        cycle_prev_key: 0x26,
        sort_mode: SortMode::Manual,
        popup_location: PopupLocation::CursorMonitorCenter,
        close_after_switch: true,
        close_on_focus_loss: true,
        start_with_windows: false,
        auto_display_recovery: true,
        unknown_window_policy: UnknownWindowPolicy::Ask,
    }
}

fn saved(id: &str, path: Option<&str>, x: i32, y: i32) -> SavedMonitor {
    SavedMonitor {
        stable_id: id.to_string(),
        device_name: id.to_string(),
        device_path: path.map(str::to_string),
        friendly_name: None,
        bounds_px: PixelRect::new(x, y, 1920, 1080),
        work_area_px: PixelRect::new(x, y, 1920, 1040),
        dpi_x: 96,
        dpi_y: 96,
        auto_split: Some(AutoSplit::One),
        excluded: false,
    }
}

fn live(name: &str, path: Option<&str>, x: i32, y: i32) -> LiveMonitor {
    LiveMonitor {
        device_name: name.to_string(),
        device_path: path.map(str::to_string),
        bounds_px: PixelRect::new(x, y, 1920, 1080),
    }
}

#[test]
fn no_renames_when_names_still_match() {
    let saved = [
        saved("A", Some("p1"), 0, 0),
        saved("B", Some("p2"), 1920, 0),
    ];
    let live = [live("A", Some("p1"), 0, 0), live("B", Some("p2"), 1920, 0)];
    assert!(plan_remap(&saved, &live).is_empty());
}

#[test]
fn device_path_wins_over_position() {
    let saved = [
        saved("A", Some("p1"), 0, 0),
        saved("B", Some("p2"), 1920, 0),
    ];
    let live = [live("B", Some("p1"), 1920, 0), live("A", Some("p2"), 0, 0)];

    let renames = plan_remap(&saved, &live);
    assert_eq!(renames.get("A"), Some(&"B".to_string()));
    assert_eq!(renames.get("B"), Some(&"A".to_string()));
}

#[test]
fn falls_back_to_bounds_when_no_device_path_was_saved() {
    let saved = [
        saved("\\\\.\\DISPLAY1", None, 0, 0),
        saved("\\\\.\\DISPLAY2", None, 1920, 0),
    ];
    let live = [
        live("\\\\.\\DISPLAY2", Some("p1"), 0, 0),
        live("\\\\.\\DISPLAY1", Some("p2"), 1920, 0),
    ];

    let renames = plan_remap(&saved, &live);
    assert_eq!(renames.len(), 2);
    assert_eq!(
        renames.get("\\\\.\\DISPLAY1"),
        Some(&"\\\\.\\DISPLAY2".to_string())
    );
    assert_eq!(
        renames.get("\\\\.\\DISPLAY2"),
        Some(&"\\\\.\\DISPLAY1".to_string())
    );
}

#[test]
fn rearranged_monitors_are_left_alone() {
    let saved = [saved("A", None, 0, 0), saved("B", None, 1920, 0)];
    let live = [live("A", None, 0, 1080), live("B", None, 1920, 1080)];
    assert!(plan_remap(&saved, &live).is_empty());
}

#[test]
fn duplicated_bounds_are_never_matched_by_position() {
    let saved = [saved("A", None, 0, 0), saved("B", None, 0, 0)];
    let live = [live("B", None, 0, 0), live("A", None, 0, 0)];
    assert!(plan_remap(&saved, &live).is_empty());
}

#[test]
fn a_disconnected_monitor_does_not_block_the_others() {
    let saved = [
        saved("A", Some("p1"), 0, 0),
        saved("B", Some("p2"), 1920, 0),
        saved("C", Some("p3"), 3840, 0),
    ];
    let live = [live("B", Some("p1"), 0, 0), live("A", Some("p2"), 1920, 0)];

    let renames = plan_remap(&saved, &live);
    assert_eq!(renames.get("A"), Some(&"B".to_string()));
    assert_eq!(renames.get("B"), Some(&"A".to_string()));
    assert!(!renames.contains_key("C"));
}

#[test]
fn a_rename_colliding_with_a_disconnected_monitor_is_refused() {
    let saved = [
        saved("A", Some("p1"), 0, 0),
        saved("C", Some("p3"), 3840, 0),
    ];
    let live = [live("C", Some("p1"), 0, 0)];
    assert!(plan_remap(&saved, &live).is_empty());
}

#[test]
fn apply_remap_rewrites_every_place_a_device_name_is_stored() {

    let mut config = AppConfig::new_empty(settings());
    config.monitors = vec![saved("A", None, 0, 0)];
    config.main_monitor_ids = vec!["A".to_string()];
    config.sub_screens = vec![SubScreen {
        id: fresh_id(),
        name: "sub".to_string(),
        monitor_ids: vec!["A".to_string()],
        split: AutoSplit::One,
        cell_index: 0,
        fullscreen: false,
    }];
    config.fixed_slots = vec![FixedParkingSlot {
        id: fresh_id(),
        monitor_id: "A".to_string(),
        grid: AutoSplit::One,
        cell_index: 0,
        assigned_workset_id: fresh_id(),
    }];
    config.worksets = vec![Workset {
        id: fresh_id(),
        name: "ws".to_string(),
        repository_path: String::from(r"D:\repo"),
        repository_kind: RepositoryKind::Git,
        color: "#fff".to_string(),
        sort_order: 0,
        direct_hotkey: None,
        parking_policy: ParkingPolicy::Auto,
        fullscreen_when_parked: false,
        windows: vec![ManagedWindow {
            id: fresh_id(),
            matcher: WindowMatcher {
                executable_path: String::from(r"C:\code.exe"),
                process_name: "code.exe".to_string(),
                window_class: "X".to_string(),
                registered_title: "t".to_string(),
                title_contains: None,
                title_regex: None,
            },
            main_placement: SavedPlacement {
                monitor_id: "A".to_string(),
                main_monitor_index: 0,
                normalized_rect: NormalizedRect {
                    x: unit(0.0),
                    y: unit(0.0),
                    width: unit(1.0),
                    height: unit(1.0),
                },
                physical_rect_at_capture: PixelRect::new(0, 0, 800, 600),
                show_state: SavedShowState::Normal,
            },
            z_order: 0,
            launch_spec: None,
            minimize_when_parked: false,
        }],
        created_at: "2026-07-24T00:00:00Z".to_string(),
        updated_at: "2026-07-24T00:00:00Z".to_string(),
    }];
    let mut slots = vec![("ws".to_string(), "A::2".to_string())];

    let mut fingerprint = Some("A:0,0,1920,1080|C:1920,0,1920,1080".to_string());

    let renames = RenameMap::from_pairs(vec![("A".to_string(), "B".to_string())]);
    let changed = apply_remap(&mut config, &mut slots, &mut fingerprint, &renames);

    assert_eq!(changed, 7, "7か所すべてが書き換わること");
    assert_eq!(config.monitors[0].stable_id, "B");
    assert_eq!(config.monitors[0].device_name, "B");
    assert_eq!(config.main_monitor_ids, vec!["B".to_string()]);
    assert_eq!(config.sub_screens[0].monitor_ids, vec!["B".to_string()]);
    assert_eq!(config.fixed_slots[0].monitor_id, "B");
    assert_eq!(config.worksets[0].windows[0].main_placement.monitor_id, "B");
    assert_eq!(slots, vec![("ws".to_string(), "B::2".to_string())]);
    assert_eq!(
        fingerprint.as_deref(),
        Some("B:0,0,1920,1080|C:1920,0,1920,1080"),
        "指紋を置き去りにすると、次の WM_DISPLAYCHANGE で必ず誤検知する"
    );
}

#[test]
fn a_renamed_fingerprint_is_re_sorted_into_the_canonical_form() {
    let mut config = AppConfig::new_empty(settings());
    let mut slots: Vec<(String, String)> = Vec::new();
    let mut fingerprint = Some("A:0,0,100,100|B:100,0,100,100".to_string());
    let renames = RenameMap::from_pairs(vec![("A".to_string(), "Z".to_string())]);

    apply_remap(&mut config, &mut slots, &mut fingerprint, &renames);

    assert_eq!(
        fingerprint.as_deref(),
        Some("B:100,0,100,100|Z:0,0,100,100")
    );
}

#[test]
fn refresh_device_paths_backfills_missing_paths() {
    let mut config = AppConfig::new_empty(settings());
    config.monitors = vec![saved("A", None, 0, 0)];
    let live = [live("A", Some("p1"), 0, 0)];

    assert!(refresh_device_paths(&mut config, &live).changed());
    assert_eq!(config.monitors[0].device_path.as_deref(), Some("p1"));
    assert!(!refresh_device_paths(&mut config, &live).changed());
}

#[test]
fn refresh_device_paths_never_overwrites_a_conflicting_path() {
    let mut config = AppConfig::new_empty(settings());
    config.monitors = vec![saved("A", Some("p_old"), 0, 0)];
    let live = [live("A", Some("p_new"), 0, 0)];

    let outcome = refresh_device_paths(&mut config, &live);

    assert_eq!(config.monitors[0].device_path.as_deref(), Some("p_old"));
    assert!(!outcome.changed());
    assert_eq!(outcome.conflicting, vec!["A".to_string()]);
}
