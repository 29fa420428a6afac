//! What the quick switcher and the tray show, and how the selection moves.

use repodeck::application::colors::Rgb;
use repodeck::application::git_status_service::GitStatus;
use repodeck::application::switcher_view::{
    CycleCommit, RowContext, agent_row_status, agent_status_label, agent_symbol_and_label,
    clamp_selection, commit_cycle_selection, cycle_move_selection, cycle_watch_released,
    find_driving_run, format_elapsed, highest_priority_agent_workset, hotkey_modifier_vks, minutes_label,
    order_rows, quick_switcher_rows, recovered_message, row_of_workset, switch_failed_message,
    tray_tooltip, workset_repo_paths,
};
use repodeck::clock::{Moment, elapsed_minutes, whole_minutes};
use repodeck::domain::agent::{AgentRun, AgentState, StateRanks};
use repodeck::domain::config::{
    AppConfig, PopupLocation, SortMode, UnknownWindowPolicy, UserSettings,
};
use repodeck::domain::hotkey::{HotkeyConfig, HotkeyModifier};
use repodeck::domain::workset::{ParkingPolicy, RepositoryKind, Workset};

/// 2026-07-25T00:00:00Z.
const NOW: i64 = 1_784_937_600;

fn now() -> Moment {
    Moment { seconds: NOW, nanos: 0 }
}

fn ranks() -> StateRanks {
    StateRanks { running: 2, needs_input: 4, ready: 3, blocked: 5, idle: 1, unknown: 0 }
}

fn settings(sort_mode: SortMode) -> UserSettings {
    UserSettings {
        quick_switcher_hotkey: HotkeyConfig { modifiers: Vec::new(), virtual_key: 0x70 },
        cycle_next_key: 0x27,
        cycle_prev_key: 0x25,
        sort_mode,
        popup_location: PopupLocation::CursorMonitorCenter,
        close_after_switch: true,
        close_on_focus_loss: true,
        start_with_windows: false,
        auto_display_recovery: true,
        unknown_window_policy: UnknownWindowPolicy::Ask,
    }
}

fn workset(id: u128, name: &str, path: &str, sort_order: i32) -> Workset {
    Workset {
        id,
        name: name.to_string(),
        repository_path: path.to_string(),
        repository_kind: RepositoryKind::Git,
        color: "#dc2626".to_string(),
        sort_order,
        direct_hotkey: None,
        parking_policy: ParkingPolicy::Auto,
        fullscreen_when_parked: false,
        windows: Vec::new(),
        created_at: "2026-07-01T00:00:00Z".to_string(),
        updated_at: "2026-07-01T00:00:00Z".to_string(),
    }
}

fn run(workset_id: u128, state: AgentState, at: &str) -> AgentRun {
    AgentRun {
        session_id: "s".to_string(),
        turn_id: at.to_string(),
        workset_id,
        state,
        model: None,
        confirmed: false,
        started_at: at.to_string(),
        last_transition_at: at.to_string(),
    }
}

#[test]
fn every_state_has_its_mark_and_word() {
    assert_eq!(agent_symbol_and_label(AgentState::Running), ("●", "実行中"));
    assert_eq!(agent_symbol_and_label(AgentState::NeedsInput), ("●", "入力待ち"));
    assert_eq!(agent_symbol_and_label(AgentState::Ready), ("✓", "成功"));
    assert_eq!(agent_symbol_and_label(AgentState::Blocked), ("×", "失敗"));
    assert_eq!(agent_symbol_and_label(AgentState::Idle), ("—", "未実行"));
    assert_eq!(agent_symbol_and_label(AgentState::Unknown), ("—", "未実行"));
    assert_eq!(agent_status_label(AgentState::Ready), "完了");
    assert_eq!(agent_status_label(AgentState::Blocked), "エラー");
    assert_eq!(agent_status_label(AgentState::Idle), "");
}

#[test]
fn elapsed_time_is_told_in_whole_minutes() {
    assert_eq!(format_elapsed("2026-07-24T23:57:00Z", now()), "3分");
    assert_eq!(format_elapsed("2026-07-24T23:59:01Z", now()), "1分未満");
    assert_eq!(format_elapsed("2026-07-25T09:30:00+09:00", now()), "1分未満");
    assert_eq!(format_elapsed("2026-07-25T08:50:00+09:00", now()), "10分");
    assert_eq!(format_elapsed("2026-07-25T01:00:00Z", now()), "1分未満");
    assert_eq!(format_elapsed("yesterday", now()), "");
    assert_eq!(minutes_label(None), "");
    assert_eq!(minutes_label(Some(0)), "1分未満");
    assert_eq!(minutes_label(Some(61)), "61分");
    assert_eq!(elapsed_minutes("2026-07-24T22:00:00Z", now()), Some(120));
    assert_eq!(whole_minutes(Moment { seconds: 61, nanos: 0 }, Moment { seconds: 0, nanos: 0 }), -1);
}

#[test]
fn the_latest_run_behind_a_state_is_told() {
    let mut seen = run(1, AgentState::Ready, "2026-07-24T23:59:00Z");
    seen.confirmed = true;
    let runs = vec![
        run(1, AgentState::Ready, "2026-07-24T23:40:00Z"),
        run(1, AgentState::Ready, "2026-07-24T23:50:00Z"),
        seen,
        run(2, AgentState::Ready, "2026-07-24T23:58:00Z"),
    ];
    assert_eq!(
        agent_row_status(&runs, 1, AgentState::Ready, now()),
        ("完了", "10分".to_string())
    );
    assert_eq!(agent_row_status(&runs, 1, AgentState::Idle, now()), ("", String::new()));
    // 23:50 in UTC is later than 07:00 of the next day nine hours east.
    let apart = vec![
        run(1, AgentState::Running, "2026-07-24T23:50:00Z"),
        run(1, AgentState::Running, "2026-07-25T07:00:00+09:00"),
        run(1, AgentState::Running, "-"),
    ];
    assert_eq!(
        agent_row_status(&apart, 1, AgentState::Running, now()),
        ("実行中", "10分".to_string())
    );
    let told = vec![
        Some(Moment { seconds: 5, nanos: 2 }),
        Some(Moment { seconds: 5, nanos: 1 }),
        None,
    ];
    assert_eq!(find_driving_run(&apart, &told, 1, AgentState::Running), Some(0));
    assert_eq!(find_driving_run(&apart, &told, 2, AgentState::Running), None);
    assert_eq!(
        agent_row_status(&runs, 1, AgentState::Running, now()),
        ("実行中", String::new())
    );
}

#[test]
fn no_time_is_told_where_the_last_text_tells_none() {
    let runs = vec![
        run(1, AgentState::Running, "unknown"),
        run(1, AgentState::Running, "2026-07-24T23:50:00Z"),
    ];
    assert_eq!(
        agent_row_status(&runs, 1, AgentState::Running, now()),
        ("実行中", String::new())
    );
    let told = vec![None, Some(Moment { seconds: 5, nanos: 0 })];
    assert_eq!(find_driving_run(&runs, &told, 1, AgentState::Running), Some(0));
}

#[test]
fn the_most_urgent_set_is_picked() {
    let sets = vec![
        workset(1, "a", r"C:\a", 0),
        workset(2, "b", r"C:\b", 1),
        workset(3, "c", r"C:\c", 2),
    ];
    let runs = vec![
        run(1, AgentState::Running, "2026-07-24T23:00:00Z"),
        run(2, AgentState::Blocked, "2026-07-24T23:00:00Z"),
        run(3, AgentState::NeedsInput, "2026-07-24T23:00:00Z"),
    ];
    let tray = StateRanks { running: 1, needs_input: 3, ready: 2, blocked: 4, idle: 0, unknown: 0 };
    assert_eq!(
        highest_priority_agent_workset(&sets, &runs, &ranks(), &tray),
        Some((2, AgentState::Blocked))
    );
    assert_eq!(highest_priority_agent_workset(&sets, &[], &ranks(), &tray), None);
    assert_eq!(tray_tooltip(None), "RepoDeck");
    assert_eq!(tray_tooltip(Some(("b", AgentState::Blocked))), "RepoDeck — b: エラー");
}

#[test]
fn urgent_rows_come_first_unless_the_order_is_manual() {
    let sets = vec![workset(1, "a", r"C:\a", 0), workset(2, "b", r"C:\b", 1)];
    let runs = vec![run(2, AgentState::Blocked, "2026-07-24T23:00:00Z")];
    let names = |mode: SortMode| -> Vec<u128> {
        order_rows(&sets, mode, "", &runs, &ranks(), &ranks()).iter().map(|w| w.id).collect()
    };
    assert_eq!(names(SortMode::Manual), vec![1, 2]);
    assert_eq!(names(SortMode::Name), vec![2, 1]);
}

#[test]
fn rows_show_set_agent_and_repository() {
    let mut config = AppConfig::new_empty(settings(SortMode::Manual));
    let mut fixed = workset(2, "Beta", "", 1);
    fixed.parking_policy = ParkingPolicy::Fixed { slot_id: 5 };
    config.worksets = vec![workset(1, "Alpha", r"C:\work\repo", 0), fixed];
    let runs = vec![run(1, AgentState::Running, "2026-07-24T23:55:00Z")];
    let git = vec![(
        r"C:\work\repo".to_string(),
        GitStatus {
            is_git: true,
            branch: Some("main".to_string()),
            changed_count: 3,
            last_commit_at: Some("2026-07-24T23:42:00Z".to_string()),
            has_upstream: true,
            ahead: 0,
            behind: 0,
        },
    )];
    let context = RowContext {
        current_workset_id: Some(1),
        runs: &runs,
        ranks: ranks(),
        git: &git,
        now: now(),
    };
    let rows = quick_switcher_rows(&config, "", &context, &ranks());
    assert_eq!(rows.len(), 2);
    let a = &rows[0];
    assert_eq!((a.workset_id, a.name.as_str(), a.repository_name.as_str()), (1, "Alpha", "repo"));
    assert_eq!(a.color, Rgb { red: 0xdc, green: 0x26, blue: 0x26 });
    assert!(a.is_current && !a.is_parking_target);
    assert_eq!((a.number_hint, a.agent_state), (1, AgentState::Running));
    assert_eq!((a.agent_symbol.as_str(), a.agent_status_label.as_str()), ("●", "実行中"));
    assert_eq!(a.agent_elapsed_text, "5分");
    assert_eq!((a.branch_text.as_str(), a.changed_text.as_str()), ("main", "変更3"));
    assert_eq!(a.last_commit_minutes, Some(18));
    let b = &rows[1];
    assert!(b.is_parking_target && !b.is_current);
    assert_eq!((b.repository_name.as_str(), b.changed_text.as_str()), ("", ""));
    assert_eq!((b.number_hint, b.last_commit_minutes), (2, None));

    let found = quick_switcher_rows(&config, "ALP", &context, &ranks());
    assert_eq!(found.len(), 1);
    assert_eq!(row_of_workset(&rows, 2), Some(1));
    assert_eq!(row_of_workset(&rows, 9), None);
}

#[test]
fn only_nine_rows_have_a_number() {
    let mut config = AppConfig::new_empty(settings(SortMode::Manual));
    config.worksets = (0..10).map(|i| workset(i, "s", r"C:\s", i as i32)).collect();
    let context = RowContext {
        current_workset_id: None,
        runs: &[],
        ranks: ranks(),
        git: &[],
        now: now(),
    };
    let rows = quick_switcher_rows(&config, "", &context, &ranks());
    assert_eq!(rows[8].number_hint, 9);
    assert_eq!(rows[9].number_hint, 0);
    assert_eq!(rows[0].agent_state, AgentState::Unknown);
}

#[test]
fn the_selection_stays_on_a_row_or_the_last_action() {
    assert_eq!(clamp_selection(5, 3), 3);
    assert_eq!(clamp_selection(3, 3), 3);
    assert_eq!(clamp_selection(-2, 3), 0);
    assert_eq!(clamp_selection(1, 3), 1);
}

#[test]
fn a_step_back_undoes_a_step() {
    assert_eq!(cycle_move_selection(0, 2, true), 1);
    assert_eq!(cycle_move_selection(2, 2, true), 0);
    assert_eq!(cycle_move_selection(0, 2, false), 2);
    assert_eq!(cycle_move_selection(-1, 2, true), 1);
    assert_eq!(cycle_move_selection(7, 2, true), 2);
    assert_eq!(cycle_move_selection(0, 0, true), 0);
    assert_eq!(cycle_move_selection(i32::MAX, i32::MAX as usize + 5, true), 0);
    for at in 0..4 {
        assert_eq!(cycle_move_selection(cycle_move_selection(at, 3, true), 3, false), at);
    }
}

#[test]
fn letting_go_commits_the_selection() {
    assert_eq!(commit_cycle_selection(1, 3), CycleCommit::Switch(1));
    assert_eq!(commit_cycle_selection(3, 3), CycleCommit::EmptyMainScreen);
    assert_eq!(commit_cycle_selection(-1, 3), CycleCommit::Nothing);
    let hotkey = HotkeyConfig {
        modifiers: vec![HotkeyModifier::Win, HotkeyModifier::Alt],
        virtual_key: 0x20,
    };
    assert_eq!(hotkey_modifier_vks(&hotkey), vec![0x5B, 0x5C, 0x12]);
    assert!(cycle_watch_released(&[false, false]));
    assert!(!cycle_watch_released(&[false, true]));
    assert!(!cycle_watch_released(&[]));
}

#[test]
fn each_repository_is_watched_once() {
    let sets = vec![
        workset(1, "a", r"C:\a", 0),
        workset(2, "b", "", 1),
        workset(3, "c", r"C:\a", 2),
        workset(4, "d", r"C:\d", 3),
    ];
    let paths = workset_repo_paths(&sets);
    assert_eq!(paths, vec![String::new(), r"C:\a".to_string(), r"C:\d".to_string()]);
}

#[test]
fn repositories_are_listed_in_the_order_of_paths() {
    let sets = vec![
        workset(1, "a", r"D:\x", 0),
        workset(2, "b", r"C:\a-b\c", 1),
        workset(3, "c", r"C:\a\z", 2),
        workset(4, "d", r"\\host\share\r", 3),
        workset(5, "e", "c:/a/z/", 4),
        workset(6, "f", r"C:\a", 5),
    ];
    assert_eq!(
        workset_repo_paths(&sets),
        vec![r"\\host\share\r", r"C:\a", r"C:\a\z", r"C:\a-b\c", r"D:\x"]
    );
}

#[test]
fn outcomes_are_told() {
    assert_eq!(switch_failed_message("x"), "切替に失敗しました: x");
    assert_eq!(recovered_message(4), "4件のウィンドウをメイン画面へ回収しました。");
}
