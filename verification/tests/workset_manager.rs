//! The workset manager: registering sets, reopening what was closed, and what is shown of both.

use std::collections::{HashMap, HashSet};

use repodeck::application::colors::Rgb;
use repodeck::application::workset_manager::{
    FormError, PendingAcquire, RegistrationForm, RegistrationReading, RegistrationUndo,
    acquire_launched, apply_registration, capture_launch_spec, check_form, clamp_parking_sub,
    closed_windows, collect_registration, config_validation_message, count_reopenable_missing,
    delete_selected, describe_workset, fill_in_workset, forget_current, launches_blank_browser,
    match_status_label, missing_for_switch, pending_acquire, picked_folder_label,
    picked_workspace_label, prefill_form, refused_message, registered_message,
    registration_refusal, repository_kind_label, repository_label, seed_bindings, select_workset,
    started_message, summarize_worksets, undo_registration,
};
use repodeck::domain::config::{
    AppConfig, ConfigValidationError, PopupLocation, SortMode, UnknownWindowPolicy, UserSettings,
    name_errors,
};
use repodeck::domain::hotkey::HotkeyConfig;
use repodeck::domain::monitor::{AutoSplit, MonitorInfo};
use repodeck::domain::placement::{NormalizedRect, PixelRect, SavedPlacement, SavedShowState};
use repodeck::domain::runtime::RuntimeState;
use repodeck::domain::workset::{
    LaunchKind, LaunchSpec, ManagedWindow, ParkingPolicy, RepositoryKind, SubScreen,
    WindowMatcher, Workset,
};
use repodeck::windowing::enumerate::TopLevelWindow;
use repodeck::windowing::matcher::{MatchDecision, PlainMatching};

fn settings() -> UserSettings {
    UserSettings {
        quick_switcher_hotkey: HotkeyConfig { modifiers: Vec::new(), virtual_key: 0x70 },
        cycle_next_key: 0x27,
        cycle_prev_key: 0x25,
        sort_mode: SortMode::Manual,
        popup_location: PopupLocation::CursorMonitorCenter,
        close_after_switch: true,
        close_on_focus_loss: true,
        start_with_windows: false,
        auto_display_recovery: true,
        unknown_window_policy: UnknownWindowPolicy::Ask,
    }
}

fn spec(program: &str, kind: LaunchKind, args: &[&str]) -> LaunchSpec {
    LaunchSpec {
        program: program.to_string(),
        args: args.iter().map(|a| a.to_string()).collect(),
        kind,
        aumid: None,
    }
}

fn managed(id: u128, title: &str, launch_spec: Option<LaunchSpec>) -> ManagedWindow {
    ManagedWindow {
        id,
        matcher: WindowMatcher {
            executable_path: r"C:\Apps\tool.exe".to_string(),
            process_name: "tool.exe".to_string(),
            window_class: "ToolClass".to_string(),
            registered_title: title.to_string(),
            title_contains: Some(title.to_string()),
            title_regex: None,
        },
        main_placement: SavedPlacement {
            monitor_id: "MAIN".to_string(),
            main_monitor_index: 0,
            normalized_rect: NormalizedRect {
                x: 0,
                y: 0,
                width: 500_000_000,
                height: 500_000_000,
            },
            physical_rect_at_capture: PixelRect::new(0, 0, 960, 520),
            show_state: SavedShowState::Normal,
        },
        z_order: 0,
        launch_spec,
        minimize_when_parked: false,
    }
}

fn workset(id: u128, name: &str, windows: Vec<ManagedWindow>) -> Workset {
    Workset {
        id,
        name: name.to_string(),
        repository_path: r"C:\work\repo".to_string(),
        repository_kind: RepositoryKind::Git,
        color: "#16a34a".to_string(),
        sort_order: 4,
        direct_hotkey: None,
        parking_policy: ParkingPolicy::Auto,
        fullscreen_when_parked: false,
        windows,
        created_at: "2026-07-01T00:00:00Z".to_string(),
        updated_at: "2026-07-01T00:00:00Z".to_string(),
    }
}

fn live(hwnd: isize, title: &str) -> TopLevelWindow {
    TopLevelWindow {
        hwnd,
        process_id: 7,
        executable_path: Some(r"C:\Apps\tool.exe".to_string()),
        window_class: "ToolClass".to_string(),
        title: title.to_string(),
        rect_px: PixelRect::new(0, 0, 800, 600),
    }
}

fn main_monitor() -> MonitorInfo {
    MonitorInfo {
        handle: 1,
        device_name: "MAIN".to_string(),
        bounds_px: PixelRect::new(0, 0, 1920, 1080),
        work_area_px: PixelRect::new(0, 0, 1920, 1040),
        dpi_x: 96,
        dpi_y: 96,
        is_primary: true,
    }
}

fn area(id: u128, name: &str) -> SubScreen {
    SubScreen {
        id,
        name: name.to_string(),
        monitor_ids: Vec::new(),
        split: AutoSplit::One,
        cell_index: 0,
        fullscreen: false,
    }
}

fn form(name: &str, sub: i32) -> RegistrationForm {
    RegistrationForm {
        name: name.to_string(),
        color: Rgb { red: 0x25, green: 0x63, blue: 0xeb },
        repository_path: r"C:\work\other".to_string(),
        repository_kind: RepositoryKind::Directory,
        fullscreen_when_parked: true,
        parking_selected_sub: sub,
    }
}

fn runtime() -> RuntimeState {
    RuntimeState {
        current_workset_id: Some(5),
        window_bindings: HashMap::new(),
        auto_slot_assignments: Vec::new(),
        agent_runs: Vec::new(),
        last_seen_monitor_fingerprint: None,
        last_clean_shutdown: true,
        window_binding_session: None,
    }
}

#[test]
fn match_labels_warn_unless_a_window_was_found() {
    let found = MatchDecision::AutoRebind { hwnd: 3 };
    let unsure = MatchDecision::Ambiguous { candidates: vec![1, 2, 3] };
    assert_eq!(match_status_label(Some(&found)), ("自動再バインド済み".to_string(), false));
    assert_eq!(match_status_label(Some(&unsure)), ("曖昧: 候補3件".to_string(), true));
    assert_eq!(match_status_label(Some(&MatchDecision::Unresolved)).0, "未解決");
    assert_eq!(match_status_label(None), ("未解決".to_string(), true));
}

#[test]
fn repository_labels_name_kind_and_path() {
    assert_eq!(repository_kind_label(RepositoryKind::Git), "Gitリポジトリ");
    assert_eq!(repository_kind_label(RepositoryKind::Directory), "通常フォルダー");
    assert_eq!(repository_kind_label(RepositoryKind::Workspace), "ワークスペース");
    assert_eq!(
        picked_folder_label(RepositoryKind::Git, r"C:\work\repo"),
        r"Gitリポジトリとして登録されます: C:\work\repo"
    );
    assert_eq!(
        picked_workspace_label(r"C:\w\a.code-workspace", r"C:\w"),
        r"ワークスペースとして登録されます: C:\w\a.code-workspace（フォルダー: C:\w）"
    );
    assert_eq!(repository_label(""), "（リポジトリなし）");
    assert_eq!(repository_label(r"C:\work"), r"C:\work");
}

#[test]
fn summaries_count_what_was_found() {
    let sets = vec![
        workset(1, "one", vec![managed(11, "alpha", None), managed(12, "beta", None)]),
        workset(2, "two", vec![managed(21, "gamma", None)]),
    ];
    let windows = vec![live(100, "alpha"), live(300, "gamma")];
    let rows = summarize_worksets(&PlainMatching {}, &sets, &windows);
    assert_eq!(rows.len(), 2);
    assert_eq!(rows[0].status_label, "1/2件 自動再バインド・1件要確認");
    assert_eq!(rows[1].status_label, "1/1件 自動再バインド");
    assert_eq!(rows[0].window_count, 2);
    assert_eq!(rows[0].repository_path, r"C:\work\repo");
    assert_eq!(rows[0].color, Rgb { red: 0x16, green: 0xa3, blue: 0x4a });
}

#[test]
fn the_detail_lists_windows_and_counts_what_can_be_reopened() {
    let tool = || Some(spec(r"C:\Apps\tool.exe", LaunchKind::Generic, &[]));
    let sets = vec![workset(
        1,
        "one",
        vec![managed(11, "alpha", tool()), managed(12, "beta", tool()), managed(13, "gamma", None)],
    )];
    let windows = vec![live(100, "alpha")];
    let (rows, missing) =
        describe_workset(&PlainMatching {}, &sets, 0, &windows, &HashMap::new()).unwrap();
    assert_eq!(missing, 1);
    assert_eq!((rows[0].title.as_str(), rows[0].status_is_warning), ("alpha", false));
    assert_eq!((rows[1].status_label.as_str(), rows[1].status_is_warning), ("未解決", true));
    assert!(describe_workset(&PlainMatching {}, &sets, 1, &windows, &HashMap::new()).is_none());

    let decisions = HashMap::from([(11, MatchDecision::AutoRebind { hwnd: 100 })]);
    assert_eq!(count_reopenable_missing(&sets[0], &decisions), 1);

    let closed = closed_windows(&PlainMatching {}, &sets, 0, &windows).unwrap();
    assert_eq!(closed.iter().map(|w| w.id).collect::<Vec<_>>(), vec![12]);
    let missing = missing_for_switch(&PlainMatching {}, &sets, &HashMap::new(), &windows, 1);
    assert_eq!(missing.iter().map(|w| w.id).collect::<Vec<_>>(), vec![12]);
    assert!(missing_for_switch(&PlainMatching {}, &sets, &HashMap::new(), &windows, 9).is_empty());
}

#[test]
fn a_browser_without_an_address_starts_blank() {
    assert!(launches_blank_browser(&spec("b.exe", LaunchKind::Browser, &["--new-window"])));
    let with_url = spec("b.exe", LaunchKind::Browser, &["--new-window", "https://a.example"]);
    assert!(!launches_blank_browser(&with_url));
    assert!(!launches_blank_browser(&spec("c.exe", LaunchKind::Generic, &[])));
}

#[test]
fn only_windows_that_were_started_are_awaited() {
    let a = managed(1, "a", Some(spec(r"C:\b.exe", LaunchKind::Browser, &[])));
    let b = managed(2, "b", Some(spec(r"C:\c.exe", LaunchKind::Generic, &[])));
    let windows = vec![live(50, "x")];
    let pending = pending_acquire(7, &windows, &vec![&a, &b], &[true, false]).unwrap();
    assert_eq!(pending.workset_id, 7);
    assert_eq!(pending.before, HashSet::from([50]));
    assert_eq!(
        pending.dead,
        vec![(1, r"C:\b.exe".to_string(), "ToolClass".to_string())]
    );
    assert_eq!(pending.blank_browsers, HashSet::from([1]));
    assert!(pending_acquire(7, &windows, &vec![&a, &b], &[false, false]).is_none());
}

#[test]
fn only_new_windows_are_bound() {
    let pending = PendingAcquire {
        workset_id: 7,
        before: HashSet::from([50]),
        dead: vec![
            (1, r"C:\Apps\tool.exe".to_string(), "ToolClass".to_string()),
            (2, r"C:\Apps\tool.exe".to_string(), "ToolClass".to_string()),
            (3, r"C:\Apps\tool.exe".to_string(), "ToolClass".to_string()),
        ],
        blank_browsers: HashSet::from([2]),
    };
    let after = vec![live(50, "old"), live(60, "new"), live(70, "newer")];
    let mut bindings = HashMap::from([(9, 90)]);
    let blanks = acquire_launched(&pending, &after, &mut bindings);
    assert_eq!(bindings, HashMap::from([(9, 90), (1, 60), (2, 70)]));
    assert_eq!(blanks, vec![70]);
}

#[test]
fn a_reopened_set_is_no_longer_current() {
    let mut state = runtime();
    assert!(!forget_current(&mut state, 6));
    assert_eq!(state.current_workset_id, Some(5));
    assert!(forget_current(&mut state, 5));
    assert_eq!(state.current_workset_id, None);
}

#[test]
fn starting_is_announced() {
    assert_eq!(
        started_message(2),
        "2個のアプリを起動しました。配置を復元しています… （復元完了まで、同じアプリを手動で起動しないでください）"
    );
}

#[test]
fn the_open_folder_comes_before_the_repository() {
    let mut code = live(1, "code");
    code.executable_path = Some(r"C:\Apps\Code.exe".to_string());
    let line = r#""C:\Apps\Code.exe" "C:\work\open""#;
    let s = capture_launch_spec(&code, r"C:\work\repo", None, Some(line)).unwrap();
    assert_eq!(s.kind, LaunchKind::VsCode);
    assert_eq!(s.args, vec!["-n".to_string(), r"C:\work\open".to_string()]);
    let s = capture_launch_spec(&code, r"C:\work\repo", None, None).unwrap();
    assert_eq!(s.args, vec!["-n".to_string(), r"C:\work\repo".to_string()]);
    let s = capture_launch_spec(&code, "", None, None).unwrap();
    assert!(s.args.is_empty());
    code.executable_path = None;
    assert!(capture_launch_spec(&code, "", None, None).is_none());
}

#[test]
fn unreadable_windows_are_not_registered() {
    let a = live(1, "a");
    let b = live(2, "b");
    let readings = vec![
        RegistrationReading {
            window: &a,
            show_state: Some(SavedShowState::Normal),
            rect: None,
            browser_url: None,
            command_line: None,
        },
        RegistrationReading {
            window: &b,
            show_state: Some(SavedShowState::Normal),
            rect: Some(PixelRect::new(0, 0, 960, 1040)),
            browser_url: None,
            command_line: None,
        },
    ];
    let ids = vec!["MAIN".to_string()];
    let (windows, seeds) = collect_registration(&readings, "", &[main_monitor()], &ids);
    assert_eq!(windows.len(), 1);
    assert_eq!(windows[0].z_order, 1);
    assert_eq!(windows[0].main_placement.normalized_rect.width, 500_000_000);
    assert_eq!(seeds, vec![(windows[0].id, 2)]);
    assert_eq!(windows[0].launch_spec.as_ref().unwrap().program, r"C:\Apps\tool.exe");
}

#[test]
fn the_picked_area_is_kept_in_range() {
    assert_eq!(clamp_parking_sub(1, 2), 1);
    assert_eq!(clamp_parking_sub(2, 2), -1);
    assert_eq!(clamp_parking_sub(-1, 0), -1);
    assert_eq!(clamp_parking_sub(0, 0), -1);
}

#[test]
fn a_form_needs_a_name_and_windows() {
    assert_eq!(check_form("  ", 1), Err(FormError::NameMissing));
    assert_eq!(check_form("a", 0), Err(FormError::NothingTicked));
    assert_eq!(check_form(" a ", 1), Ok("a".to_string()));
    assert_eq!(FormError::NameMissing.message(), "名前を入力してください。");
    assert_eq!(FormError::NothingTicked.message(), "ウィンドウを1つ以上選択してください。");
    assert_eq!(FormError::NothingRegistrable.message(), "登録できるウィンドウがありませんでした。");
}

#[test]
fn a_new_set_is_appended_and_can_be_taken_back() {
    let mut config = AppConfig::new_empty(settings());
    config.sub_screens = vec![area(70, "左"), area(71, "右")];
    config.worksets = vec![workset(1, "one", vec![])];
    let now = "2026-07-25T00:00:00Z".to_string();
    let made = fill_in_workset(form("two", 1), &config, vec![managed(21, "x", None)], now);
    assert_eq!(made.color, "#2563eb");
    assert_eq!(made.sort_order, 1);
    assert!(made.fullscreen_when_parked);
    assert_eq!(made.parking_policy, ParkingPolicy::SubScreen { sub_screen_id: 71 });
    assert_eq!(made.created_at, "2026-07-25T00:00:00Z");
    assert_eq!(uuid::Uuid::from_u128(made.id).get_version_num(), 4);

    let undo = apply_registration(&mut config, made, None);
    assert!(matches!(undo, RegistrationUndo::Appended));
    assert_eq!(config.worksets.len(), 2);
    undo_registration(&mut config, undo);
    assert_eq!(config.worksets.len(), 1);
    assert_eq!(config.worksets[0].id, 1);
}

#[test]
fn an_edited_set_keeps_its_identity_and_can_be_taken_back() {
    let mut config = AppConfig::new_empty(settings());
    config.worksets = vec![workset(1, "one", vec![managed(11, "a", None)])];
    let now = "2026-07-25T00:00:00Z".to_string();
    let made = fill_in_workset(form("renamed", -1), &config, vec![managed(21, "x", None)], now);
    let undo = apply_registration(&mut config, made, Some(1));
    let set = &config.worksets[0];
    assert_eq!((set.id, set.name.as_str(), set.sort_order), (1, "renamed", 4));
    assert_eq!(set.created_at, "2026-07-01T00:00:00Z");
    assert_eq!(set.updated_at, "2026-07-25T00:00:00Z");
    assert_eq!(set.windows[0].id, 21);
    assert_eq!(set.parking_policy, ParkingPolicy::Auto);
    undo_registration(&mut config, undo);
    let set = &config.worksets[0];
    assert_eq!((set.name.as_str(), set.windows[0].id), ("one", 11));
    assert_eq!(set.updated_at, "2026-07-01T00:00:00Z");
}

#[test]
fn a_window_in_two_sets_is_no_reason_to_refuse() {
    let twice =
        ConfigValidationError::DuplicateWindowMatcher { registered_title: "alpha".to_string() };
    assert_eq!(
        config_validation_message(&twice),
        "「alpha」は既に別のセットに登録されています。"
    );
    assert_eq!(registration_refusal(&[twice]), None);
    let errors = [
        ConfigValidationError::WorksetNameLength,
        ConfigValidationError::DuplicateWindowMatcher { registered_title: "b".to_string() },
        ConfigValidationError::Other("bad slot".to_string()),
    ];
    let reason = registration_refusal(&errors).unwrap();
    assert_eq!(reason, "セット名は1〜80文字にしてください。 / bad slot");
    assert_eq!(
        refused_message(&reason),
        "登録できません: セット名は1〜80文字にしてください。 / bad slot"
    );
    assert_eq!(registered_message(true), "セットを更新しました。");
    assert_eq!(registered_message(false), "ワークセットを登録しました。");
}

#[test]
fn a_name_has_one_to_eighty_characters() {
    let ok = workset(1, &"名".repeat(80), vec![]);
    assert!(name_errors(&[ok]).is_empty());
    let sets = vec![workset(1, "", vec![]), workset(2, "a", vec![]), workset(3, &"x".repeat(81), vec![])];
    let errors = name_errors(&sets);
    assert_eq!(errors.len(), 2);
    assert!(errors.iter().all(|e| matches!(e, ConfigValidationError::WorksetNameLength)));
}

#[test]
fn registered_windows_are_bound_at_once() {
    let mut bindings = HashMap::from([(1, 10)]);
    seed_bindings(&mut bindings, &vec![(2, 20), (1, 11)]);
    assert_eq!(bindings, HashMap::from([(1, 11), (2, 20)]));
}

#[test]
fn editing_starts_from_the_set_as_it_is() {
    let mut config = AppConfig::new_empty(settings());
    config.sub_screens = vec![area(70, "左"), area(71, "右")];
    let mut set = workset(1, "one", vec![]);
    set.parking_policy = ParkingPolicy::SubScreen { sub_screen_id: 71 };
    set.fullscreen_when_parked = true;
    config.worksets = vec![set];
    let p = prefill_form(&config, 0).unwrap();
    assert_eq!((p.editing_id, p.name.as_str(), p.parking_selected_sub), (1, "one", 1));
    assert_eq!(p.repository, Some((r"C:\work\repo".to_string(), RepositoryKind::Git)));
    assert_eq!(p.repository_label, r"C:\work\repo");
    assert!(p.fullscreen_when_parked);
    assert!(prefill_form(&config, 1).is_none());

    config.worksets[0].repository_path = String::new();
    config.worksets[0].parking_policy = ParkingPolicy::SubScreen { sub_screen_id: 99 };
    let p = prefill_form(&config, 0).unwrap();
    assert_eq!(p.repository, None);
    assert_eq!(p.repository_label, "（リポジトリなし）");
    assert_eq!(p.parking_selected_sub, -1);
}

#[test]
fn selecting_and_deleting_stay_in_range() {
    let mut config = AppConfig::new_empty(settings());
    config.worksets = vec![workset(1, "one", vec![]), workset(2, "two", vec![])];
    let mut selected = None;
    assert!(!delete_selected(&mut config, &mut selected));
    select_workset(2, &mut selected, 5);
    assert_eq!(selected, None);
    select_workset(2, &mut selected, 1);
    assert_eq!(selected, Some(1));
    assert!(delete_selected(&mut config, &mut selected));
    assert_eq!(selected, None);
    assert_eq!(config.worksets.len(), 1);
    assert_eq!(config.worksets[0].id, 1);
}
