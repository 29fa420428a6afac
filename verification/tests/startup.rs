//! Starting up, waking up, and monitors that come and go.

use std::collections::HashMap;

use repodeck::application::crash_recovery::JournalRecoveryChoice;
use repodeck::application::display_recovery_service::{MAX_RECOVERY_ATTEMPTS, RecoveryDecision};
use repodeck::application::startup::{
    Answer, JournalStep, RecoveryLoop, begin_session, clears_journal, display_changed, end_session,
    failure_clears_journal, recovery_choice, recovery_question, startup_step,
};
use repodeck::application::switch_coordinator::SwitchError;
use repodeck::domain::monitor::{MonitorInfo, SavedMonitor};
use repodeck::domain::placement::{NormalizedRect, PixelRect, SavedPlacement, SavedShowState};
use repodeck::domain::runtime::{
    JournalStatus, JournalWindowEntry, JournalWindowState, RuntimeState, SwitchJournal,
};
use repodeck::domain::workset::{
    ManagedWindow, ParkingPolicy, RepositoryKind, WindowMatcher, Workset,
};
use repodeck::windowing::enumerate::TopLevelWindow;
use repodeck::windowing::matcher::PlainMatching;

fn journal(to: u128) -> SwitchJournal {
    SwitchJournal {
        schema_version: 1,
        transaction_id: 9,
        status: JournalStatus::Started,
        from_workset_id: None,
        to_workset_id: to,
        created_at: "2026-07-25T00:00:00Z".to_string(),
        windows: vec![JournalWindowEntry {
            managed_window_id: 4,
            hwnd: 40,
            process_id: 1,
            before: JournalWindowState {
                rect: PixelRect::new(0, 0, 10, 10),
                show_state: SavedShowState::Normal,
            },
        }],
    }
}

fn runtime() -> RuntimeState {
    RuntimeState {
        current_workset_id: Some(5),
        window_bindings: HashMap::from([(1, 10)]),
        auto_slot_assignments: Vec::new(),
        agent_runs: Vec::new(),
        last_seen_monitor_fingerprint: None,
        last_clean_shutdown: true,
        window_binding_session: Some("old".to_string()),
    }
}

fn monitor(name: &str, x: i32) -> MonitorInfo {
    MonitorInfo {
        handle: 1,
        device_name: name.to_string(),
        bounds_px: PixelRect::new(x, 0, 1920, 1080),
        work_area_px: PixelRect::new(x, 0, 1920, 1040),
        dpi_x: 96,
        dpi_y: 96,
        is_primary: x == 0,
    }
}

fn saved(name: &str) -> SavedMonitor {
    SavedMonitor {
        stable_id: name.to_string(),
        device_name: name.to_string(),
        device_path: None,
        friendly_name: None,
        bounds_px: PixelRect::new(0, 0, 1920, 1080),
        work_area_px: PixelRect::new(0, 0, 1920, 1040),
        dpi_x: 96,
        dpi_y: 96,
        auto_split: None,
        excluded: false,
    }
}

fn set_with_window() -> Workset {
    Workset {
        id: 1,
        name: "one".to_string(),
        repository_path: String::new(),
        repository_kind: RepositoryKind::Directory,
        color: "#16a34a".to_string(),
        sort_order: 0,
        direct_hotkey: None,
        parking_policy: ParkingPolicy::Auto,
        fullscreen_when_parked: false,
        windows: vec![ManagedWindow {
            id: 11,
            matcher: WindowMatcher {
                executable_path: r"C:\Apps\tool.exe".to_string(),
                process_name: "tool.exe".to_string(),
                window_class: "ToolClass".to_string(),
                registered_title: "alpha".to_string(),
                title_contains: Some("alpha".to_string()),
                title_regex: None,
            },
            main_placement: SavedPlacement {
                monitor_id: "A".to_string(),
                main_monitor_index: 0,
                normalized_rect: NormalizedRect { x: 0, y: 0, width: 1, height: 1 },
                physical_rect_at_capture: PixelRect::new(0, 0, 10, 10),
                show_state: SavedShowState::Normal,
            },
            z_order: 0,
            launch_spec: None,
            minimize_when_parked: false,
        }],
        created_at: String::new(),
        updated_at: String::new(),
    }
}

#[test]
fn a_journal_left_behind_is_asked_about() {
    assert_eq!(startup_step(None, None), JournalStep::Nothing);
    assert_eq!(startup_step(Some(&journal(5)), Some(5)), JournalStep::Clear);
    assert_eq!(startup_step(Some(&journal(6)), Some(5)), JournalStep::Ask(1));
    assert_eq!(
        recovery_question(3),
        "前回の切替が中断されました(3件のウィンドウに影響)。\n\n[はい] 元の配置に戻す\n[いいえ] 全ウィンドウをメイン画面へ回収\n[キャンセル] 何もしない(次回起動時に再度確認します)"
    );
    assert_eq!(recovery_choice(Answer::Yes), JournalRecoveryChoice::RestoreOriginalPlacement);
    assert_eq!(recovery_choice(Answer::No), JournalRecoveryChoice::RecoverAllToMain);
    assert_eq!(recovery_choice(Answer::Cancel), JournalRecoveryChoice::DoNothing);
    assert!(clears_journal(JournalRecoveryChoice::RestoreOriginalPlacement));
    assert!(clears_journal(JournalRecoveryChoice::RecoverAllToMain));
    assert!(!clears_journal(JournalRecoveryChoice::DoNothing));
    assert!(failure_clears_journal(&SwitchError::RolledBack {
        reason: "x".to_string(),
        unrecoverable_hwnds: vec![],
    }));
    assert!(!failure_clears_journal(&SwitchError::RollbackFailed {
        reason: "x".to_string(),
        unrecoverable_hwnds: vec![7],
    }));
    assert!(!failure_clears_journal(&SwitchError::NoMainMonitor));
}

#[test]
fn bindings_live_as_long_as_the_session() {
    let mut state = runtime();
    begin_session(&mut state, true, "old".to_string());
    assert!(!state.last_clean_shutdown);
    assert_eq!(state.window_bindings.len(), 1);
    begin_session(&mut state, false, "new".to_string());
    assert!(state.window_bindings.is_empty());
    assert_eq!(state.window_binding_session, Some("new".to_string()));
    assert_eq!(state.current_workset_id, Some(5));
    end_session(&mut state);
    assert!(state.last_clean_shutdown);
}

#[test]
fn a_change_of_the_display_finds_lost_windows() {
    let sets = vec![set_with_window()];
    let windows = vec![TopLevelWindow {
        hwnd: 100,
        process_id: 7,
        executable_path: Some(r"C:\Apps\tool.exe".to_string()),
        window_class: "ToolClass".to_string(),
        title: "alpha".to_string(),
        rect_px: PixelRect::new(5000, 0, 800, 600),
    }];
    let monitors = vec![monitor("A", 0)];
    let change = display_changed(&PlainMatching {}, &None, &sets, &windows, &monitors).unwrap();
    assert_eq!(change.offscreen, vec![100]);
    let seen = Some(change.fingerprint.clone());
    assert!(display_changed(&PlainMatching {}, &seen, &sets, &windows, &monitors).is_none());
    let more = vec![monitor("A", 0), monitor("B", 4900)];
    let change = display_changed(&PlainMatching {}, &seen, &sets, &windows, &more).unwrap();
    assert!(change.offscreen.is_empty());
}

#[test]
fn attempts_to_bring_monitors_back_run_out() {
    let wanted = vec![saved("A"), saved("B")];
    let there = vec!["A".to_string()];
    let mut attempts = RecoveryLoop::resumed();
    assert_eq!(attempts.step(&wanted, &there, false), RecoveryDecision::Disabled);
    assert_eq!(attempts.step(&[], &there, true), RecoveryDecision::NoSavedTopology);
    for n in 1..=MAX_RECOVERY_ATTEMPTS {
        assert_eq!(
            attempts.step(&wanted, &there, true),
            RecoveryDecision::Recover { missing: vec!["B".to_string()], attempt: n }
        );
    }
    assert_eq!(
        attempts.step(&wanted, &there, true),
        RecoveryDecision::GiveUp { missing: vec!["B".to_string()] }
    );
    let both = vec!["B".to_string(), "A".to_string()];
    assert_eq!(attempts.step(&wanted, &both, true), RecoveryDecision::UpToDate);
}
