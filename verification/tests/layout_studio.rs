//! The layout studio: roles of monitors, named areas, and emptying the main screen.

use std::cell::RefCell;
use std::collections::{HashMap, HashSet};

use repodeck::application::colors::{Rgb, color_choices, color_to_hex, hex_to_color, palette};
use repodeck::application::empty_main::{
    checked_windows, compute_confirmed_destinations, compute_empty_main_destinations,
    empty_main_screen, empty_ticked_windows, emptied_message, minimized_message, perform_undo,
    put_back_message,
};
use repodeck::application::layout_service::{UndoEntry, UndoSnapshot};
use repodeck::application::layout_studio::{
    EmptyRequest, LayoutStudioState, SubScreenError, add_sub_screen, apply_layout,
    auto_split_label, candidate_program, cycle_sub_screen_region, delete_sub_screen,
    describe_monitors, describe_selected, next_sub_region, request_empty_main_screen,
    resolve_main_monitor_bounds, sub_region_label, sub_screen_rows, toggle_excluded, toggle_main,
    toggle_sub_screen_fullscreen, toggle_sub_screen_monitor,
};
use repodeck::application::window_ops::{Recorder, WindowError, WindowOps, WindowOpsError};
use repodeck::domain::config::{
    AppConfig, PopupLocation, SortMode, UnknownWindowPolicy, UserSettings,
};
use repodeck::domain::hotkey::{HotkeyConfig, HotkeyModifier};
use repodeck::domain::monitor::{AutoSplit, MonitorInfo, SavedMonitor};
use repodeck::domain::placement::{NormalizedRect, PixelRect, SavedPlacement, SavedShowState};
use repodeck::domain::workset::{
    ManagedWindow, ParkingPolicy, RepositoryKind, WindowMatcher, Workset,
};
use repodeck::windowing::enumerate::TopLevelWindow;
use repodeck::windowing::matcher::PlainMatching;

fn settings() -> UserSettings {
    UserSettings {
        quick_switcher_hotkey: HotkeyConfig {
            modifiers: vec![HotkeyModifier::Control, HotkeyModifier::Alt],
            virtual_key: 0x20,
        },
        cycle_next_key: 0x27,
        cycle_prev_key: 0x25,
        sort_mode: SortMode::Manual,
        popup_location: PopupLocation::CursorMonitorCenter,
        close_after_switch: true,
        close_on_focus_loss: true,
        start_with_windows: false,
        auto_display_recovery: true,
        unknown_window_policy: UnknownWindowPolicy::Ask,
    }
}

fn monitor(name: &str, x: i32, width: i32, height: i32) -> MonitorInfo {
    MonitorInfo {
        handle: 1,
        device_name: name.to_string(),
        bounds_px: PixelRect::new(x, 0, width, height),
        work_area_px: PixelRect::new(x, 0, width, height - 40),
        dpi_x: 144,
        dpi_y: 144,
        is_primary: x == 0,
    }
}

fn saved(name: &str, auto_split: Option<AutoSplit>, excluded: bool) -> SavedMonitor {
    SavedMonitor {
        stable_id: name.to_string(),
        device_name: name.to_string(),
        device_path: None,
        friendly_name: None,
        bounds_px: PixelRect::new(0, 0, 1920, 1080),
        work_area_px: PixelRect::new(0, 0, 1920, 1040),
        dpi_x: 96,
        dpi_y: 96,
        auto_split,
        excluded,
    }
}

fn studio(monitors: Vec<MonitorInfo>, selected: Option<usize>) -> LayoutStudioState {
    let mut state = LayoutStudioState::new();
    state.monitors = monitors;
    state.selected_index = selected;
    state
}

fn window(hwnd: isize, title: &str, rect: PixelRect) -> TopLevelWindow {
    TopLevelWindow {
        hwnd,
        process_id: 7,
        executable_path: Some(r"C:\Apps\tool.exe".to_string()),
        window_class: "ToolClass".to_string(),
        title: title.to_string(),
        rect_px: rect,
    }
}

fn managed(id: u128, title: &str) -> ManagedWindow {
    ManagedWindow {
        id,
        matcher: WindowMatcher {
            executable_path: r"C:\Apps\tool.exe".to_string(),
            process_name: "tool.exe".to_string(),
            window_class: "ToolClass".to_string(),
            registered_title: title.to_string(),
            title_contains: Some(title.to_string()),
            title_regex: None,
        },
        main_placement: SavedPlacement {
            monitor_id: "MAIN".to_string(),
            main_monitor_index: 0,
            normalized_rect: NormalizedRect {
                x: 0,
                y: 0,
                width: 500_000_000,
                height: 1_000_000_000,
            },
            physical_rect_at_capture: PixelRect::new(0, 0, 960, 1040),
            show_state: SavedShowState::Normal,
        },
        z_order: 0,
        launch_spec: None,
        minimize_when_parked: false,
    }
}

fn workset(id: u128, policy: ParkingPolicy, windows: Vec<ManagedWindow>) -> Workset {
    Workset {
        id,
        name: "set".to_string(),
        repository_path: r"C:\repo".to_string(),
        repository_kind: RepositoryKind::Git,
        color: "#2563eb".to_string(),
        sort_order: 0,
        direct_hotkey: None,
        parking_policy: policy,
        fullscreen_when_parked: false,
        windows,
        created_at: "2026-07-20T00:00:00Z".to_string(),
        updated_at: "2026-07-20T00:00:00Z".to_string(),
    }
}

#[test]
fn split_labels_tell_what_automatic_comes_to() {
    let small = PixelRect::new(0, 0, 1920, 1040);
    let wide = PixelRect::new(0, 0, 2560, 1400);
    let huge = PixelRect::new(0, 0, 3840, 2120);
    assert_eq!(auto_split_label(None, small), "自動 (1分割)");
    assert_eq!(auto_split_label(None, wide), "自動 (2分割)");
    assert_eq!(auto_split_label(None, huge), "自動 (4分割)");
    assert_eq!(auto_split_label(Some(AutoSplit::FourGrid), small), "4分割");
}

#[test]
fn unsaved_edits_come_before_saved_choices() {
    let mut config = AppConfig::new_empty(settings());
    config.monitors = vec![saved("A", Some(AutoSplit::TwoColumns), true)];
    let mut state = studio(vec![monitor("A", 0, 1920, 1080)], None);
    assert_eq!(state.auto_split_for(&config, "A"), Some(AutoSplit::TwoColumns));
    assert!(state.excluded_for(&config, "A"));
    assert!(!state.excluded_for(&config, "B"));
    state.set_auto_split(0, 4);
    assert_eq!(state.auto_split_for(&config, "A"), Some(AutoSplit::FourGrid));
    state.set_auto_split(0, 0);
    assert_eq!(state.auto_split_for(&config, "A"), None);
    state.set_auto_split(5, 1);
    assert_eq!(state.auto_splits.len(), 1);
}

#[test]
fn tiles_name_the_role_of_each_monitor() {
    let mut config = AppConfig::new_empty(settings());
    config.main_monitor_ids = vec!["A".to_string()];
    config.monitors = vec![saved("B", None, true)];
    assert_eq!(add_sub_screen(&mut config, " 右 ").is_ok(), true);
    config.sub_screens[0].monitor_ids.push("C".to_string());
    let state = studio(Vec::new(), Some(2));
    let monitors = vec![
        monitor("A", 0, 1920, 1080),
        monitor("B", 1920, 1920, 1080),
        monitor("C", 3840, 1920, 1080),
        monitor("D", 5760, 2560, 1440),
    ];
    let tiles = describe_monitors(&config, &state, &monitors);
    let roles: Vec<&str> = tiles.iter().map(|t| t.role_label.as_str()).collect();
    assert_eq!(roles, vec!["MAIN 1", "対象外", "サブ: 右", "自動 (2分割)"]);
    assert_eq!(tiles[3].detail_label, "2560×1440  150%");
    assert!(tiles[0].is_main && !tiles[1].is_main);
    assert!(tiles[1].is_excluded && tiles[2].is_sub && tiles[2].selected);
}

#[test]
fn the_selected_monitor_is_described() {
    let mut config = AppConfig::new_empty(settings());
    config.main_monitor_ids = vec!["A".to_string()];
    let mut state = studio(vec![monitor("A", 0, 1920, 1080), monitor("B", 1920, 1280, 720)], None);
    assert!(describe_selected(&config, &state).is_none());
    state.selected_index = Some(9);
    assert!(describe_selected(&config, &state).is_none());
    state.selected_index = Some(0);
    state.set_auto_split(0, 2);
    let shown = describe_selected(&config, &state).unwrap();
    assert!(shown.is_main && !shown.excluded);
    assert_eq!((shown.auto_split, shown.index), (2, 0));
    assert_eq!(
        shown.detail,
        "A\n1920×1080 (作業領域 1920×1040)\nDPI 150%\nWindowsのプライマリモニター"
    );
    state.selected_index = Some(1);
    let shown = describe_selected(&config, &state).unwrap();
    assert_eq!(shown.detail, "B\n1280×720 (作業領域 1280×680)\nDPI 150%");
}

#[test]
fn regions_come_round_after_seven_steps() {
    let labels = ["左半分", "右半分", "左上¼", "右上¼", "左下¼", "右下¼", "全体"];
    let mut at = (AutoSplit::One, 0);
    for label in labels {
        at = next_sub_region(at.0, at.1);
        assert_eq!(sub_region_label(at.0, at.1), label);
    }
    assert_eq!(at, (AutoSplit::One, 0));
    assert_eq!(sub_region_label(AutoSplit::TwoColumns, 9), "全体");
    assert_eq!(next_sub_region(AutoSplit::TwoColumns, 9), (AutoSplit::TwoColumns, 0));
}

#[test]
fn a_monitor_has_one_role_at_a_time() {
    let mut config = AppConfig::new_empty(settings());
    let mut state = studio(vec![monitor("A", 0, 1920, 1080)], Some(0));
    add_sub_screen(&mut config, "左").unwrap();
    add_sub_screen(&mut config, "右").unwrap();

    assert!(toggle_sub_screen_monitor(&mut config, &mut state, 0));
    assert_eq!(config.sub_screens[0].monitor_ids, vec!["A".to_string()]);
    assert!(toggle_sub_screen_monitor(&mut config, &mut state, 1));
    assert!(config.sub_screens[0].monitor_ids.is_empty());
    assert_eq!(config.sub_screens[1].monitor_ids, vec!["A".to_string()]);

    assert_eq!(toggle_main(&mut config, &mut state), Some(true));
    assert_eq!(config.main_monitor_ids, vec!["A".to_string()]);
    assert!(config.sub_screens[1].monitor_ids.is_empty());

    assert_eq!(toggle_excluded(&mut config, &mut state), Some(true));
    assert!(config.main_monitor_ids.is_empty());
    assert!(state.excluded_for(&config, "A"));

    assert_eq!(toggle_main(&mut config, &mut state), Some(true));
    assert!(!state.excluded_for(&config, "A"));
    assert_eq!(toggle_main(&mut config, &mut state), Some(false));
    assert!(config.main_monitor_ids.is_empty());
}

#[test]
fn nothing_is_toggled_without_a_selection() {
    let mut config = AppConfig::new_empty(settings());
    let mut state = studio(vec![monitor("A", 0, 1920, 1080)], None);
    assert_eq!(toggle_main(&mut config, &mut state), None);
    assert_eq!(toggle_excluded(&mut config, &mut state), None);
    assert!(!toggle_sub_screen_monitor(&mut config, &mut state, 0));
    assert!(config.main_monitor_ids.is_empty());
}

#[test]
fn a_named_area_needs_a_name_of_its_own() {
    let mut config = AppConfig::new_empty(settings());
    assert_eq!(add_sub_screen(&mut config, "  "), Err(SubScreenError::NameMissing));
    assert_eq!(
        add_sub_screen(&mut config, " 右 "),
        Ok("サブ画面「右」を追加しました。モニターを割り当ててください。".to_string())
    );
    assert_eq!(add_sub_screen(&mut config, "右"), Err(SubScreenError::NameTaken));
    assert_eq!(SubScreenError::NameMissing.message(), "サブ画面の名前を入力してください。");
    assert_eq!(SubScreenError::NameTaken.message(), "同じ名前のサブ画面が既にあります。");
    assert_eq!(config.sub_screens.len(), 1);
    assert_eq!(config.sub_screens[0].name, "右");
}

#[test]
fn fresh_areas_have_ids_of_their_own() {
    let mut config = AppConfig::new_empty(settings());
    add_sub_screen(&mut config, "a").unwrap();
    add_sub_screen(&mut config, "b").unwrap();
    assert_ne!(config.sub_screens[0].id, config.sub_screens[1].id);
    assert_eq!(uuid::Uuid::from_u128(config.sub_screens[0].id).get_version_num(), 4);
}

#[test]
fn no_set_parks_in_an_area_that_is_gone() {
    let mut config = AppConfig::new_empty(settings());
    add_sub_screen(&mut config, "右").unwrap();
    let id = config.sub_screens[0].id;
    let parked = ParkingPolicy::SubScreen { sub_screen_id: id };
    config.worksets = vec![workset(1, parked, vec![]), workset(2, ParkingPolicy::Auto, vec![])];
    assert_eq!(delete_sub_screen(&mut config, 3), None);
    assert_eq!(
        delete_sub_screen(&mut config, 0),
        Some("サブ画面「右」を削除しました。".to_string())
    );
    assert_eq!(config.worksets[0].parking_policy, ParkingPolicy::Auto);
    assert!(config.sub_screens.is_empty());
}

#[test]
fn area_rows_follow_region_and_full_screen() {
    let mut config = AppConfig::new_empty(settings());
    add_sub_screen(&mut config, "右").unwrap();
    config.sub_screens[0].monitor_ids.push("B".to_string());
    cycle_sub_screen_region(&mut config, 0);
    toggle_sub_screen_fullscreen(&mut config, 0);
    cycle_sub_screen_region(&mut config, 4);
    let rows = sub_screen_rows(&config, "B");
    assert_eq!(rows.len(), 1);
    assert_eq!((rows[0].name.as_str(), rows[0].region_label.as_str()), ("右", "左半分"));
    assert!(rows[0].assigned && rows[0].fullscreen);
    assert!(!sub_screen_rows(&config, "A")[0].assigned);
}

#[test]
fn main_bounds_come_in_the_order_of_the_main_monitors() {
    let monitors = vec![monitor("A", 0, 1920, 1080), monitor("B", 1920, 1280, 720)];
    let ids = vec!["B".to_string(), "X".to_string(), "A".to_string()];
    assert_eq!(
        resolve_main_monitor_bounds(&monitors, &ids),
        vec![PixelRect::new(1920, 0, 1280, 720), PixelRect::new(0, 0, 1920, 1080)]
    );
}

#[test]
fn emptying_is_asked_for_only_where_there_is_something_to_empty() {
    let mut config = AppConfig::new_empty(settings());
    let monitors = vec![monitor("A", 0, 1920, 1080)];
    let here = vec![window(1, "one", PixelRect::new(10, 10, 400, 300))];
    let r = request_empty_main_screen(&config, &monitors, &here);
    assert!(matches!(r, EmptyRequest::NoMainScreen));
    assert!(r.is_warning());
    assert_eq!(
        r.message(),
        "メイン画面が未設定です。先にモニターを選択して「メイン画面に登録する」を押してください。"
    );
    config.main_monitor_ids = vec!["A".to_string()];
    let r = request_empty_main_screen(&config, &monitors, &[]);
    assert!(matches!(r, EmptyRequest::NothingThere));
    assert_eq!(r.message(), "メイン画面に対象ウィンドウはありませんでした。");
    let r = request_empty_main_screen(&config, &monitors, &here);
    assert_eq!(r.message(), "最小化するウィンドウを確認してください。");
    assert!(!r.is_warning());
    match r {
        EmptyRequest::Ask(windows) => assert_eq!(windows[0].hwnd, 1),
        _ => panic!("the windows were not offered"),
    }
    config.settings.unknown_window_policy = UnknownWindowPolicy::LeaveInPlace;
    let r = request_empty_main_screen(&config, &monitors, &here);
    assert_eq!(
        r.message(),
        "1個の未登録ウィンドウがありますが、設定方針によりそのままにしました。"
    );
}

#[test]
fn a_candidate_is_named_by_its_program_or_class() {
    let mut w = window(1, "one", PixelRect::new(0, 0, 10, 10));
    assert_eq!(candidate_program(&w), "tool.exe");
    w.executable_path = None;
    assert_eq!(candidate_program(&w), "ToolClass");
}

#[test]
fn saving_the_layout_keeps_the_edits() {
    let mut config = AppConfig::new_empty(settings());
    config.monitors = vec![saved("A", Some(AutoSplit::TwoColumns), false)];
    let mut state =
        studio(vec![monitor("A", 0, 1920, 1080), monitor("B", 1920, 1280, 720)], Some(1));
    state.set_auto_split(1, 4);
    toggle_excluded(&mut config, &mut state);
    apply_layout(&mut config, &state);
    assert_eq!(config.monitors.len(), 2);
    assert_eq!(config.monitors[0].auto_split, Some(AutoSplit::TwoColumns));
    assert_eq!(config.monitors[1].auto_split, Some(AutoSplit::FourGrid));
    assert!(config.monitors[1].excluded && !config.monitors[0].excluded);
    assert_eq!(config.monitors[1].stable_id, "B");
    assert_eq!(config.monitors[1].bounds_px, PixelRect::new(1920, 0, 1280, 720));
    let fresh = LayoutStudioState::new();
    assert_eq!(fresh.auto_split_for(&config, "B"), Some(AutoSplit::FourGrid));
}

#[test]
fn colors_round_trip() {
    assert_eq!(hex_to_color("#2563eb"), Rgb { red: 0x25, green: 0x63, blue: 0xeb });
    assert_eq!(hex_to_color("2563EB"), Rgb { red: 0x25, green: 0x63, blue: 0xeb });
    assert_eq!(hex_to_color("#25"), Rgb { red: 0x25, green: 0, blue: 0 });
    assert_eq!(hex_to_color("#zz10ff"), Rgb { red: 0, green: 0x10, blue: 0xff });
    assert_eq!(hex_to_color(""), Rgb { red: 0, green: 0, blue: 0 });
    assert_eq!(color_to_hex(Rgb { red: 1, green: 0xab, blue: 255 }), "#01abff");
    for hex in palette() {
        assert_eq!(color_to_hex(hex_to_color(hex)), hex);
    }
}

#[test]
fn unused_colors_are_offered_first() {
    assert_eq!(palette().len(), 16);
    let mut one = workset(1, ParkingPolicy::Auto, vec![]);
    one.color = palette()[0].to_string();
    let choices = color_choices(&[one]);
    assert!(!choices.contains(&palette()[0]));
    assert_eq!(choices[0], palette()[1]);
}

/// A desktop that notes what it is asked to do.
struct NotingDesktop {
    notes: RefCell<Vec<String>>,
    unreadable: isize,
    stuck: isize,
}

impl WindowOps for NotingDesktop {
    fn get_show_state(&self, hwnd: isize) -> Result<SavedShowState, WindowError> {
        if hwnd == self.unreadable {
            Err(WindowError { operation: "GetWindowPlacement".to_string() })
        } else {
            Ok(SavedShowState::Maximized)
        }
    }

    fn get_normal_rect(&self, hwnd: isize) -> Result<PixelRect, WindowError> {
        Ok(PixelRect::new(hwnd as i32, 0, 300, 200))
    }

    fn restore(&self, hwnd: isize) {
        self.notes.borrow_mut().push(format!("restore {hwnd}"));
    }

    fn maximize(&self, hwnd: isize) {
        self.notes.borrow_mut().push(format!("maximize {hwnd}"));
    }

    fn set_placement(&self, hwnd: isize, rect: PixelRect, maximized: bool, fill: bool) {
        self.notes.borrow_mut().push(format!("place {hwnd} {} {maximized} {fill}", rect.x));
    }

    fn minimize(&self, hwnd: isize) {
        self.notes.borrow_mut().push(format!("minimize {hwnd}"));
    }

    fn send_fullscreen_keys(&self, hwnd: isize, refocus: Option<isize>) {
        self.notes.borrow_mut().push(format!("keys {hwnd} {refocus:?}"));
    }

    fn exit_fullscreen(&self, hwnd: isize, rect: PixelRect, maximized: bool, fill: bool) {
        self.notes.borrow_mut().push(format!("exit {hwnd} {} {maximized} {fill}", rect.x));
    }

    fn batch_move(&self, moves: &[(isize, PixelRect)]) -> Result<(), WindowOpsError> {
        for (hwnd, rect) in moves {
            if *hwnd == self.stuck {
                return Err(WindowOpsError::PerWindowFailed {
                    hwnd: *hwnd,
                    source: WindowError { operation: "SetWindowPos".to_string() },
                });
            }
            self.notes.borrow_mut().push(format!("move {hwnd} {}", rect.x));
        }
        Ok(())
    }

    fn set_z_order_after(&self, hwnd: isize, insert_after: Option<isize>) {
        self.notes.borrow_mut().push(format!("order {hwnd} {insert_after:?}"));
    }

    fn set_foreground(&self, hwnd: isize) {
        self.notes.borrow_mut().push(format!("front {hwnd}"));
    }

    fn is_window_alive(&self, _hwnd: isize) -> bool {
        true
    }
}

#[test]
fn emptying_parks_minimizes_and_can_be_undone() {
    let desktop = NotingDesktop { notes: RefCell::new(Vec::new()), unreadable: 3, stuck: -1 };
    let mut ops = Recorder::new(desktop);
    let windows = vec![
        window(1, "a", PixelRect::new(0, 0, 10, 10)),
        window(2, "b", PixelRect::new(0, 0, 10, 10)),
        window(3, "c", PixelRect::new(0, 0, 10, 10)),
    ];
    let rects = HashMap::from([(1, PixelRect::new(1920, 0, 960, 540))]);
    let full = HashSet::from([1]);
    let done = empty_main_screen(&mut ops, &windows, &rects, &full);
    assert_eq!((done.parked, done.minimized, done.entries.len()), (1, 1, 2));
    assert_eq!(
        *ops.ops().notes.borrow(),
        vec!["place 1 1920 false true", "keys 1 None", "minimize 2"]
    );
    assert_eq!(emptied_message(done.parked, done.minimized), "1個を退避、1個を最小化しました。");
    assert_eq!(minimized_message(2), "2個のウィンドウを最小化しました。");

    ops.ops().notes.borrow_mut().clear();
    let snapshot = UndoSnapshot { entries: done.entries };
    perform_undo(&mut ops, &snapshot);
    assert_eq!(
        *ops.ops().notes.borrow(),
        vec!["restore 1", "move 1 1", "maximize 1", "restore 2", "move 2 2", "maximize 2"]
    );
    assert_eq!(put_back_message(snapshot.entries.len()), "2個のウィンドウを元に戻しました。");
}

#[test]
fn a_ticked_window_that_cannot_be_moved_is_minimized() {
    let desktop = NotingDesktop { notes: RefCell::new(Vec::new()), unreadable: 4, stuck: 2 };
    let mut ops = Recorder::new(desktop);
    let windows: Vec<TopLevelWindow> =
        (1..=4).map(|h| window(h, "w", PixelRect::new(0, 0, 10, 10))).collect();
    let cell = PixelRect::new(1920, 0, 960, 540);
    let rects = HashMap::from([(1, cell), (2, cell), (4, cell)]);
    let full = HashSet::from([1, 2]);
    let done = empty_ticked_windows(&mut ops, &windows, &rects, &full);
    assert_eq!((done.parked, done.minimized, done.entries.len()), (1, 2, 3));
    assert_eq!(
        *ops.ops().notes.borrow(),
        vec!["restore 1", "move 1 1920", "keys 1 None", "restore 2", "minimize 2", "minimize 3"]
    );
}

#[test]
fn a_window_that_cannot_be_moved_is_passed_over() {
    let desktop = NotingDesktop { notes: RefCell::new(Vec::new()), unreadable: -1, stuck: 1 };
    let mut ops = Recorder::new(desktop);
    let entry = |hwnd: isize, state: SavedShowState| UndoEntry {
        hwnd,
        process_id: 1,
        before_rect: PixelRect::new(5, 5, 10, 10),
        before_show_state: state,
    };
    let snapshot = UndoSnapshot {
        entries: vec![entry(1, SavedShowState::Maximized), entry(2, SavedShowState::Minimized)],
    };
    perform_undo(&mut ops, &snapshot);
    assert_eq!(*ops.ops().notes.borrow(), vec!["restore 1", "restore 2", "move 2 5", "minimize 2"]);
}

#[test]
fn only_ticked_windows_are_taken() {
    let windows = vec![
        window(1, "a", PixelRect::new(0, 0, 10, 10)),
        window(2, "b", PixelRect::new(0, 0, 10, 10)),
        window(3, "c", PixelRect::new(0, 0, 10, 10)),
    ];
    let taken = checked_windows(&windows, &[false, true]);
    assert_eq!(taken.iter().map(|w| w.hwnd).collect::<Vec<_>>(), vec![2]);
}

#[test]
fn emptying_sends_sets_to_their_area_or_to_free_screens() {
    let mut config = AppConfig::new_empty(settings());
    config.main_monitor_ids = vec!["MAIN".to_string()];
    add_sub_screen(&mut config, "右").unwrap();
    config.sub_screens[0].monitor_ids.push("SUB".to_string());
    let area = ParkingPolicy::SubScreen { sub_screen_id: config.sub_screens[0].id };
    config.worksets = vec![
        workset(1, area, vec![managed(11, "alpha")]),
        workset(2, ParkingPolicy::Auto, vec![managed(12, "beta")]),
    ];
    let monitors = vec![
        monitor("MAIN", 0, 1920, 1080),
        monitor("SUB", 1920, 1920, 1080),
        monitor("FREE", 3840, 1920, 1080),
    ];
    let windows = vec![
        window(100, "alpha", PixelRect::new(0, 0, 960, 1040)),
        window(200, "beta", PixelRect::new(100, 100, 500, 400)),
        window(300, "stray", PixelRect::new(100, 100, 500, 400)),
    ];
    let (rects, full) = compute_empty_main_destinations(
        &PlainMatching {},
        &config,
        &HashMap::new(),
        &monitors,
        &windows,
    );
    assert_eq!(rects.get(&100), Some(&PixelRect::new(1920, 0, 1920, 1040)));
    assert_eq!(rects.get(&200), Some(&PixelRect::new(3840, 0, 1920, 1040)));
    assert_eq!(rects.get(&300), None);
    assert!(full.is_empty());
}

#[test]
fn a_set_alone_in_its_area_fills_it() {
    let mut config = AppConfig::new_empty(settings());
    config.main_monitor_ids = vec!["MAIN".to_string()];
    add_sub_screen(&mut config, "右").unwrap();
    config.sub_screens[0].monitor_ids.push("SUB".to_string());
    toggle_sub_screen_fullscreen(&mut config, 0);
    let area = ParkingPolicy::SubScreen { sub_screen_id: config.sub_screens[0].id };
    config.worksets = vec![workset(1, area, vec![managed(11, "alpha")])];
    let monitors = vec![monitor("MAIN", 0, 1920, 1080), monitor("SUB", 1920, 1920, 1080)];
    let windows = vec![window(100, "alpha", PixelRect::new(0, 0, 960, 1040))];
    let (rects, full) = compute_empty_main_destinations(
        &PlainMatching {},
        &config,
        &HashMap::new(),
        &monitors,
        &windows,
    );
    assert!(rects.contains_key(&100));
    assert!(full.contains(&100));
}

#[test]
fn sets_that_park_as_room_allows_get_dealt_cells() {
    let mut config = AppConfig::new_empty(settings());
    config.main_monitor_ids = vec!["MAIN".to_string()];
    config.worksets = vec![workset(1, ParkingPolicy::Auto, vec![managed(11, "alpha")])];
    let monitors = vec![monitor("MAIN", 0, 1920, 1080), monitor("FREE", 1920, 1920, 1080)];
    let windows = vec![window(100, "alpha", PixelRect::new(0, 0, 960, 1040))];
    let (rects, full) = compute_confirmed_destinations(
        &PlainMatching {},
        &config,
        &HashMap::new(),
        &Vec::new(),
        &monitors,
        &windows,
    );
    let cell = rects.get(&100).copied().unwrap();
    assert!(cell.x >= 1920 && cell.x + cell.width <= 3840);
    assert!(full.is_empty());
}
