//! What holds of the library as a whole, on concrete values.

use std::collections::{HashMap, HashSet};

use repodeck::application::agent_status_service::{
    NormalizedEvent, NormalizedEventKind, UNMATCHED_RETENTION, apply_event, update_runs,
};
use repodeck::application::git_status_service::{
    clean_branch, parse_ahead_behind, parse_changed_count, status_from,
};
use repodeck::application::integrity_service::{check_and_repair, detect};
use repodeck::application::launch_service::{
    retitle_declared_vscode_windows, split_registered_args, store_app_aumid,
};
use repodeck::application::layout_service::{
    auto_split_cells, normalized_split_cell, split_cell_from_normalized,
};
use repodeck::application::main_placement::resolve_main_restore;
use repodeck::application::monitor_identity::{
    LiveMonitor, RenameMap, apply_remap, plan_remap, refresh_device_paths,
};
use repodeck::application::monitor_watch_service::compute_fingerprint;
use repodeck::application::parking_allocator::{
    AllocationInput, ParkAssignment, ParkingSlotId, allocate_parking,
};
use repodeck::application::parking_cells::{
    distribute_parking, grid, screen_capacity, smallest_cell_area, subdivide_for_count,
};
use repodeck::application::parking_placement::{ParkPlan, plan_park_into_slot};
use repodeck::application::quick_switcher_service::{
    MoveDirection, move_workset, sorted_and_filtered,
};
use repodeck::application::recovery_service::plan_recovery_tiles;
use repodeck::application::workset_service::{
    DiskFacts, WorkspaceFile, WorkspaceFileError, build_managed_window,
    resolve_all_matches_with_bindings, resolve_workspace_file,
};
use repodeck::domain::agent::{AgentRun, AgentState};
use repodeck::domain::config::{
    AppConfig, PopupLocation, SortMode, UnknownWindowPolicy, UserSettings,
};
use repodeck::domain::hotkey::HotkeyConfig;
use repodeck::domain::monitor::{AutoSplit, MonitorInfo, SavedMonitor};
use repodeck::domain::placement::{
    NormalizedRect, PixelRect, SavedPlacement, SavedShowState, denormalize, normalize,
};
use repodeck::domain::workset::{
    FixedParkingSlot, LaunchKind, LaunchSpec, ManagedWindow, ParkingPolicy, RepositoryKind,
    WindowMatcher, Workset,
};
use repodeck::keyed::{lookup, put};
use repodeck::text::{
    decimal_text, padded_hex_text, parse_signed, parse_unsigned, signed_decimal_text,
    split_at_last_pair, split_text, trim_text,
};
use repodeck::tools::simtest::Rng;
use repodeck::windowing::enumerate::TopLevelWindow;
use repodeck::windowing::matcher::{MatchDecision, PlainMatching};
use repodeck::winpath::{equal_paths, file_name, file_stem, is_absolute, join, parent, starts_with};

fn monitor(name: &str, x: i32, width: i32) -> MonitorInfo {
    MonitorInfo {
        handle: 1,
        device_name: name.to_string(),
        bounds_px: PixelRect::new(x, 0, width, 1080),
        work_area_px: PixelRect::new(x, 0, width, 1040),
        dpi_x: 96,
        dpi_y: 96,
        is_primary: x == 0,
    }
}

fn managed(id: u128, title: &str) -> ManagedWindow {
    ManagedWindow {
        id,
        matcher: WindowMatcher {
            executable_path: r"C:\Apps\tool.exe".to_string(),
            process_name: "tool.exe".to_string(),
            window_class: "ToolClass".to_string(),
            registered_title: title.to_string(),
            title_contains: Some(title.to_string()),
            title_regex: None,
        },
        main_placement: SavedPlacement {
            monitor_id: "MAIN".to_string(),
            main_monitor_index: 0,
            normalized_rect: NormalizedRect { x: 0, y: 0, width: 1, height: 1 },
            physical_rect_at_capture: PixelRect::new(0, 0, 1, 1),
            show_state: SavedShowState::Normal,
        },
        z_order: 0,
        launch_spec: None,
        minimize_when_parked: false,
    }
}

fn workset(id: u128, policy: ParkingPolicy, windows: Vec<ManagedWindow>) -> Workset {
    Workset {
        id,
        name: format!("set {id}"),
        repository_path: format!(r"C:\work\{id}"),
        repository_kind: RepositoryKind::Directory,
        color: "#16a34a".to_string(),
        sort_order: id as i32,
        direct_hotkey: None,
        parking_policy: policy,
        fullscreen_when_parked: false,
        windows,
        created_at: String::new(),
        updated_at: format!("2026-07-2{id}T00:00:00Z"),
    }
}

fn live(hwnd: isize, title: &str) -> TopLevelWindow {
    TopLevelWindow {
        hwnd,
        process_id: 7,
        executable_path: Some(r"C:\Apps\tool.exe".to_string()),
        window_class: "ToolClass".to_string(),
        title: title.to_string(),
        rect_px: PixelRect::new(0, 0, 800, 600),
    }
}

fn config() -> AppConfig {
    AppConfig::new_empty(UserSettings {
        quick_switcher_hotkey: HotkeyConfig { modifiers: Vec::new(), virtual_key: 0x70 },
        cycle_next_key: 0x27,
        cycle_prev_key: 0x25,
        sort_mode: SortMode::Manual,
        popup_location: PopupLocation::CursorMonitorCenter,
        close_after_switch: true,
        close_on_focus_loss: true,
        start_with_windows: false,
        auto_display_recovery: true,
        unknown_window_policy: UnknownWindowPolicy::Ask,
    })
}

fn event(kind: NormalizedEventKind, turn: &str) -> NormalizedEvent {
    NormalizedEvent {
        schema_version: 1,
        source: "codex".to_string(),
        event: kind,
        session_id: "s".to_string(),
        turn_id: turn.to_string(),
        cwd: r"C:\work\1".to_string(),
        model: None,
        occurred_at: "2026-07-25T00:00:00Z".to_string(),
    }
}

fn area(rects: &[PixelRect]) -> i64 {
    rects.iter().map(|r| i64::from(r.width) * i64::from(r.height)).sum()
}

fn no_overlap(rects: &[PixelRect]) -> bool {
    (0..rects.len()).all(|i| (i + 1..rects.len()).all(|j| !rects[i].overlaps(&rects[j])))
}

#[test]
fn cells_tile_their_region() {
    let region = PixelRect::new(-7, 3, 1921, 1083);
    for count in 1..=6 {
        let cells = subdivide_for_count(region, count);
        let wanted = if count == 5 { 6 } else { count };
        assert_eq!(cells.len(), wanted);
        assert_eq!(area(&cells), 1921 * 1083);
        assert!(no_overlap(&cells));
    }
    assert_eq!(
        subdivide_for_count(region, 2),
        vec![PixelRect::new(-7, 3, 960, 1083), PixelRect::new(953, 3, 961, 1083)]
    );
    assert_eq!(grid(PixelRect::new(0, 0, 10, 5), 3, 2)[4], PixelRect::new(3, 2, 3, 3));
    let wide = grid(region, 7, 5);
    assert_eq!(wide.len(), 35);
    assert_eq!(area(&wide), 1921 * 1083);
    assert!(no_overlap(&wide));
    assert_eq!(wide[8], PixelRect::new(267, 219, 274, 217));
    assert!(grid(region, 0, 4).is_empty());
    assert_eq!(smallest_cell_area(PixelRect::new(0, 0, 100, 100), 2), 5000);
    assert_eq!(screen_capacity(PixelRect::new(0, 0, 2400, 100)), 6);
    assert_eq!(screen_capacity(PixelRect::new(0, 0, 2399, 100)), 4);
}

#[test]
fn splits_tile_the_work_area_and_are_told_apart() {
    let work = PixelRect::new(0, 0, 1921, 1041);
    for split in [AutoSplit::One, AutoSplit::TwoColumns, AutoSplit::FourGrid] {
        let cells = auto_split_cells(work, split);
        assert_eq!(area(&cells), 1921 * 1041);
        assert!(no_overlap(&cells));
        for cell in 0..split.cell_count() {
            let rect = normalized_split_cell(split, cell);
            assert_eq!(split_cell_from_normalized(rect), (split, cell));
        }
    }
}

#[test]
fn windows_are_spread_without_loss_or_overlap() {
    let screens = vec![PixelRect::new(0, 0, 1920, 1040), PixelRect::new(1920, 0, 2560, 1400)];
    let windows: Vec<isize> = (1..=12).collect();
    let (placed, over) = distribute_parking(&screens, &windows);
    assert_eq!((placed.len(), over.len()), (10, 2));
    let mut all: Vec<isize> = placed.iter().map(|p| p.0).chain(over.iter().copied()).collect();
    all.sort();
    assert_eq!(all, windows);
    let rects: Vec<PixelRect> = placed.iter().map(|p| p.1).collect();
    assert!(no_overlap(&rects));
}

#[test]
fn a_lone_window_fills_its_cell() {
    let cell = PixelRect::new(100, 50, 300, 200);
    let one = [PixelRect::new(5, 5, 1111, 777)];
    assert_eq!(plan_park_into_slot(&one, cell), ParkPlan::ShrinkToFit(vec![cell]));
    let tiny = PixelRect::new(0, 0, 119, 200);
    assert_eq!(plan_park_into_slot(&one, tiny), ParkPlan::MinimizeWhole);
}

#[test]
fn slots_read_back_as_written() {
    let slot = ParkingSlotId { monitor_id: r"\\.\DISPLAY1::x".to_string(), cell_index: 12 };
    assert_eq!(slot.encode(), r"\\.\DISPLAY1::x::12");
    assert_eq!(ParkingSlotId::decode(&slot.encode()), Some(slot));
    assert_eq!(ParkingSlotId::decode("no slot"), None);
    assert_eq!(ParkingSlotId::decode("a::b"), None);
}

#[test]
fn a_designated_set_keeps_its_cell_and_others_settle() {
    let slot = FixedParkingSlot {
        id: 70,
        monitor_id: "FIX".to_string(),
        grid: AutoSplit::TwoColumns,
        cell_index: 1,
        assigned_workset_id: 1,
    };
    let sets = vec![
        workset(1, ParkingPolicy::Fixed { slot_id: 70 }, vec![]),
        workset(2, ParkingPolicy::Auto, vec![]),
        workset(3, ParkingPolicy::Auto, vec![]),
        workset(4, ParkingPolicy::Auto, vec![]),
    ];
    let monitors =
        vec![monitor("MAIN", 0, 1920), monitor("FIX", 1920, 1920), monitor("FREE", 3840, 1920)];
    let main_ids = vec!["MAIN".to_string()];
    let slots = vec![slot];
    let allocate = |previous: &HashMap<u128, ParkingSlotId>, current: u128, with: &[u128]| {
        let with: HashSet<u128> = with.iter().copied().collect();
        allocate_parking(&AllocationInput {
            worksets: &sets,
            current_workset_id: Some(current),
            fixed_slots: &slots,
            main_monitor_ids: &main_ids,
            live_monitors: &monitors,
            saved_monitors: &[],
            sub_screen_monitor_ids: &[],
            previous_assignments: previous,
            worksets_with_windows: &with,
        })
    };
    let first = allocate(&HashMap::new(), 4, &[1, 2, 3]);
    let cell = PixelRect::new(2880, 0, 960, 1040);
    let fixed = |r: &ParkAssignment| matches!(r, ParkAssignment::FixedSlot { rect, .. } if *rect == cell);
    assert!(fixed(&first.assignments[&1]));
    assert!(!first.assignments.contains_key(&4));
    let again = allocate(&first.new_auto_slot_assignments, 4, &[1, 2, 3]);
    assert_eq!(again.new_auto_slot_assignments, first.new_auto_slot_assignments);
    let other = allocate(&again.new_auto_slot_assignments, 2, &[1, 3, 4]);
    assert!(fixed(&other.assignments[&1]));
    for a in other.assignments.values() {
        match a {
            ParkAssignment::AutoSlot { slot, rect } => {
                assert_eq!(slot.monitor_id, "FREE");
                assert!(rect.x >= 3840 && rect.x + rect.width <= 5760);
            }
            ParkAssignment::FixedSlot { rect, .. } => assert_eq!(*rect, cell),
            ParkAssignment::Minimized => panic!("there was room"),
        }
    }
}

#[test]
fn fingerprints_ignore_order_and_tell_changes() {
    let a = monitor("A", 0, 1920);
    let b = monitor("B", 1920, 2560);
    let one = compute_fingerprint(&[a.clone(), b.clone()]);
    assert_eq!(one, compute_fingerprint(&[b.clone(), a.clone()]));
    assert_ne!(one, compute_fingerprint(&[a.clone()]));
    assert_ne!(one, compute_fingerprint(&[a.clone(), monitor("B", 1921, 2560)]));
    assert_ne!(one, compute_fingerprint(&[a.clone(), b.clone(), b.clone()]));
    let mut other = b;
    other.work_area_px = PixelRect::new(0, 0, 1, 1);
    (other.handle, other.dpi_x, other.is_primary) = (99, 144, true);
    assert_eq!(one, compute_fingerprint(&[other, a]));
}

#[test]
fn moving_down_and_up_changes_nothing() {
    let mut sets = vec![
        workset(1, ParkingPolicy::Auto, vec![]),
        workset(2, ParkingPolicy::Auto, vec![]),
        workset(3, ParkingPolicy::Auto, vec![]),
    ];
    let order = |sets: &[Workset]| -> Vec<u128> {
        sorted_and_filtered(sets, SortMode::Manual, "").iter().map(|w| w.id).collect()
    };
    assert!(move_workset(&mut sets, 1, MoveDirection::Down));
    assert_eq!(order(&sets), vec![2, 1, 3]);
    assert!(move_workset(&mut sets, 1, MoveDirection::Up));
    assert_eq!(order(&sets), vec![1, 2, 3]);
    assert!(!move_workset(&mut sets, 1, MoveDirection::Up));
    assert!(!move_workset(&mut sets, 9, MoveDirection::Down));
}

#[test]
fn filtering_ignores_case_beyond_ascii() {
    let mut sets =
        vec![workset(1, ParkingPolicy::Auto, vec![]), workset(2, ParkingPolicy::Auto, vec![])];
    sets[0].name = "ÉTUDE".to_string();
    sets[1].name = "other".to_string();
    let found = sorted_and_filtered(&sets, SortMode::Manual, "étu");
    assert_eq!(found.iter().map(|w| w.id).collect::<Vec<_>>(), vec![1]);
}

#[test]
fn no_window_is_given_twice_and_the_preferred_set_comes_first() {
    let sets = vec![
        workset(1, ParkingPolicy::Auto, vec![managed(11, "alpha")]),
        workset(2, ParkingPolicy::Auto, vec![managed(21, "alpha")]),
    ];
    let windows = vec![live(100, "alpha")];
    let plain =
        resolve_all_matches_with_bindings(&PlainMatching {}, &sets, &windows, &HashMap::new(), None);
    assert_eq!(plain[&11], MatchDecision::AutoRebind { hwnd: 100 });
    assert_eq!(plain[&21], MatchDecision::Unresolved);
    let preferred = resolve_all_matches_with_bindings(
        &PlainMatching {},
        &sets,
        &windows,
        &HashMap::new(),
        Some(2),
    );
    assert_eq!(preferred[&21], MatchDecision::AutoRebind { hwnd: 100 });
    assert_eq!(preferred[&11], MatchDecision::Unresolved);
}

#[test]
fn every_window_of_the_preferred_set_keeps_its_handle() {
    let sets = vec![
        workset(1, ParkingPolicy::Auto, vec![managed(11, "alpha"), managed(12, "beta")]),
        workset(2, ParkingPolicy::Auto, vec![managed(21, "alpha"), managed(22, "beta")]),
    ];
    let windows = vec![live(100, "other"), live(200, "another")];
    let bindings = HashMap::from([(11, 200), (12, 100), (21, 100), (22, 200)]);
    let found = resolve_all_matches_with_bindings(
        &PlainMatching {},
        &sets,
        &windows,
        &bindings,
        Some(2),
    );
    assert_eq!(found[&21], MatchDecision::AutoRebind { hwnd: 100 });
    assert_eq!(found[&22], MatchDecision::AutoRebind { hwnd: 200 });
    assert_eq!(found[&11], MatchDecision::Unresolved);
    assert_eq!(found[&12], MatchDecision::Unresolved);
}

#[test]
fn swapping_two_names_twice_restores_everything() {
    let swap = RenameMap::from_pairs(vec![
        ("A".to_string(), "B".to_string()),
        ("B".to_string(), "A".to_string()),
    ]);
    let before = [monitor("A", 0, 1920), monitor("B", 1920, 2560)];
    let after = [monitor("B", 0, 1920), monitor("A", 1920, 2560)];
    let mut c = config();
    c.main_monitor_ids = vec!["A".to_string(), "C".to_string()];
    c.worksets = vec![workset(1, ParkingPolicy::Auto, vec![managed(11, "alpha")])];
    c.worksets[0].windows[0].main_placement.monitor_id = "B".to_string();
    let mut slots = vec![("x".to_string(), "A::2".to_string()), ("y".to_string(), "B:::1".to_string())];
    let mut seen = Some(compute_fingerprint(&before));

    let first = apply_remap(&mut c, &mut slots, &mut seen, &swap);
    assert_eq!(c.main_monitor_ids, vec!["B".to_string(), "C".to_string()]);
    assert_eq!(c.worksets[0].windows[0].main_placement.monitor_id, "A");
    assert_eq!(slots[0].1, "B::2");
    assert_eq!(slots[1].1, "B:::1");
    assert_eq!(seen, Some(compute_fingerprint(&after)));

    assert_eq!(apply_remap(&mut c, &mut slots, &mut seen, &swap), first);
    assert_eq!(c.main_monitor_ids, vec!["A".to_string(), "C".to_string()]);
    assert_eq!(c.worksets[0].windows[0].main_placement.monitor_id, "B");
    assert_eq!(slots[0].1, "A::2");
    assert_eq!(seen, Some(compute_fingerprint(&before)));
}

#[test]
fn the_version_of_a_store_program_does_not_matter() {
    for version in ["1.0", "99.2.3.4", "2_beta"] {
        for architecture in ["x64", "arm64"] {
            let exe = format!(
                r"D:\Games\windowsapps\Maker.Tool_{version}_{architecture}__abc123\bin\tool.exe"
            );
            assert_eq!(store_app_aumid(&exe).as_deref(), Some("Maker.Tool_abc123!App"));
        }
    }
    assert_eq!(store_app_aumid(r"D:\Games\Maker.Tool_1_x64__abc123\tool.exe"), None);
}

#[test]
fn fractions_name_a_cell_but_for_a_pixel() {
    let area = PixelRect::new(10, 20, 1921, 1041);
    for cell in 0..4 {
        let exact = auto_split_cells(area, AutoSplit::FourGrid)[cell];
        let told = denormalize(normalized_split_cell(AutoSplit::FourGrid, cell), area);
        assert!((exact.x - told.x).abs() <= 1 && (exact.width - told.width).abs() <= 1);
        assert!((exact.y - told.y).abs() <= 1 && (exact.height - told.height).abs() <= 1);
    }
}

#[test]
fn more_windows_never_enlarge_the_smallest_cell() {
    for rect in [PixelRect::new(0, 0, 1921, 1041), PixelRect::new(0, 0, 1081, 2561)] {
        for count in 0..7 {
            assert!(smallest_cell_area(rect, count + 1) <= smallest_cell_area(rect, count));
        }
    }
}

#[test]
fn a_repair_leaves_nothing_to_repair() {
    let sets = vec![workset(1, ParkingPolicy::Auto, vec![managed(11, "alpha")])];
    let windows = vec![live(100, "alpha"), live(200, "beta")];
    let mut bindings = HashMap::from([(99, 300), (11, 200)]);
    let report = check_and_repair(&PlainMatching {}, &sets, &windows, &mut bindings);
    assert!(report.detected_anything());
    assert!(!bindings.contains_key(&99));
    let left = detect(&PlainMatching {}, &sets, &windows, &bindings);
    assert!(left.iter().all(|a| !a.is_repairable()));
}

#[test]
fn a_repeated_event_changes_nothing() {
    let mut runs: Vec<AgentRun> = Vec::new();
    update_runs(&mut runs, 1, &event(NormalizedEventKind::RunStarted, "t"));
    let once = runs.clone();
    update_runs(&mut runs, 1, &event(NormalizedEventKind::RunStarted, "t"));
    assert_eq!(runs.len(), 1);
    assert_eq!(runs[0].state, once[0].state);
    update_runs(&mut runs, 1, &event(NormalizedEventKind::RunCompleted, "t"));
    assert_eq!((runs.len(), runs[0].state), (1, AgentState::Ready));
    update_runs(&mut runs, 1, &event(NormalizedEventKind::RunStarted, "u"));
    assert_eq!(runs.len(), 2);
}

#[test]
fn an_event_without_a_set_is_kept_for_a_while() {
    let disk = DiskFacts { git_roots: Vec::new(), workspaces: Vec::new() };
    let mut unmatched = Vec::new();
    let mut runs = Vec::new();
    let e = event(NormalizedEventKind::RunStarted, "t");
    assert_eq!(apply_event(&disk, &[], &mut unmatched, &mut runs, &e, 5), None);
    assert_eq!((unmatched.len(), runs.len()), (1, 0));
    let later = 6 + UNMATCHED_RETENTION;
    assert_eq!(apply_event(&disk, &[], &mut unmatched, &mut runs, &e, later), None);
    assert_eq!(unmatched.len(), 1);
    let sets = vec![workset(1, ParkingPolicy::Auto, vec![])];
    assert_eq!(apply_event(&disk, &sets, &mut unmatched, &mut runs, &e, later), Some(1));
    assert_eq!(runs.len(), 1);
}

#[test]
fn every_way_a_workspace_file_fails_is_told() {
    let file = r"C:\w\a.code-workspace";
    let read = |f: &WorkspaceFile| resolve_workspace_file(file, f);
    assert!(matches!(read(&WorkspaceFile::Unreadable), Err(WorkspaceFileError::ReadFailed)));
    assert!(matches!(read(&WorkspaceFile::Malformed), Err(WorkspaceFileError::ParseFailed)));
    let none = WorkspaceFile::Folders(Vec::new());
    assert!(matches!(read(&none), Err(WorkspaceFileError::NoFolders)));
    let some = WorkspaceFile::Folders(vec!["sub".to_string()]);
    assert_eq!(read(&some).ok(), Some(r"C:\w\sub".to_string()));
}

#[test]
fn registered_arguments_are_split_like_a_command_line() {
    assert_eq!(split_registered_args("a  b c"), vec!["a", "b", "c"]);
    assert_eq!(split_registered_args("a \"b c\" d"), vec!["a", "b c", "d"]);
    assert!(split_registered_args("  ").is_empty());
}

#[test]
fn retitling_settles() {
    let mut w = managed(11, "old");
    w.launch_spec = Some(LaunchSpec {
        program: r"C:\Apps\Code.exe".to_string(),
        args: vec!["-n".to_string(), r"C:\work\thing".to_string()],
        kind: LaunchKind::VsCode,
        aumid: None,
    });
    let mut sets = vec![workset(1, ParkingPolicy::Auto, vec![w])];
    assert_eq!(retitle_declared_vscode_windows(&mut sets), 1);
    assert_eq!(sets[0].windows[0].matcher.title_contains.as_deref(), Some("thing"));
    assert_eq!(retitle_declared_vscode_windows(&mut sets), 0);

    // A folder of the very name that the window was registered under is put in its own place.
    sets[0].windows[0].matcher.registered_title = "thing".to_string();
    assert_eq!(retitle_declared_vscode_windows(&mut sets), 1);
    assert_eq!(sets[0].windows[0].matcher.title_contains.as_deref(), Some("thing"));
}

#[test]
fn renaming_monitors_settles() {
    let saved = |name: &str, path: Option<&str>, x: i32| SavedMonitor {
        stable_id: name.to_string(),
        device_name: name.to_string(),
        device_path: path.map(str::to_string),
        friendly_name: None,
        bounds_px: PixelRect::new(x, 0, 1920, 1080),
        work_area_px: PixelRect::new(x, 0, 1920, 1040),
        dpi_x: 96,
        dpi_y: 96,
        auto_split: None,
        excluded: false,
    };
    let there = |name: &str, path: &str, x: i32| LiveMonitor {
        device_name: name.to_string(),
        device_path: Some(path.to_string()),
        bounds_px: PixelRect::new(x, 0, 1920, 1080),
    };
    let mut c = config();
    c.monitors = vec![saved("D1", Some("p1"), 0), saved("D2", Some("p2"), 1920)];
    c.main_monitor_ids = vec!["D1".to_string()];
    let now = vec![there("D2", "p1", 0), there("D1", "p2", 1920)];
    let plan = plan_remap(&c.monitors, &now);
    assert_eq!(plan.get("D1"), Some(&"D2".to_string()));
    assert_eq!(plan.get("D2"), Some(&"D1".to_string()));
    let mut slots = Vec::new();
    let mut seen = None;
    assert!(apply_remap(&mut c, &mut slots, &mut seen, &plan) > 0);
    assert_eq!(c.main_monitor_ids, vec!["D2".to_string()]);
    assert!(plan_remap(&c.monitors, &now).is_empty());

    let mut c = config();
    c.monitors = vec![saved("D1", None, 0)];
    let first = refresh_device_paths(&mut c, &[there("D1", "p1", 0)]);
    assert_eq!(first.filled, 1);
    assert!(!refresh_device_paths(&mut c, &[there("D1", "p1", 0)]).changed());
}

#[test]
fn recovered_windows_are_tiled_apart() {
    let work = PixelRect::new(0, 0, 1920, 1040);
    let tiles = plan_recovery_tiles(5, work);
    assert_eq!(tiles.len(), 5);
    assert!(no_overlap(&tiles));
    assert!(tiles.iter().all(|t| t.x >= 0 && t.x + t.width <= 1920 && t.y + t.height <= 1040));
}

#[test]
fn places_keep_their_share_of_a_monitor() {
    let from = PixelRect::new(0, 0, 1920, 1040);
    let rect = PixelRect::new(480, 260, 960, 520);
    let share = normalize(rect, from);
    assert_eq!(share.width, 500_000_000);
    assert_eq!(denormalize(share, from), rect);
    assert_eq!(
        denormalize(share, PixelRect::new(1920, 0, 3840, 2080)),
        PixelRect::new(2880, 520, 1920, 1040)
    );
}

#[test]
fn a_registered_window_comes_back_to_its_place() {
    let monitors = vec![monitor("MAIN", 0, 2560), monitor("SIDE", 2560, 1921)];
    let ids = vec!["MAIN".to_string(), "SIDE".to_string()];
    for rect in [
        PixelRect::new(2777, 13, 1001, 777),
        PixelRect::new(2550, -20, 1941, 1080),
        PixelRect::new(3333, 400, 160, 90),
    ] {
        let mut window = live(5, "alpha");
        window.rect_px = rect;
        let built =
            build_managed_window(&window, rect, SavedShowState::Maximized, 0, &monitors, &ids)
                .unwrap();
        assert_eq!(built.main_placement.main_monitor_index, 1);
        let back = resolve_main_restore(&built.main_placement, &monitors, &ids).unwrap();
        assert_eq!((back.rect, back.show_state), (rect, SavedShowState::Maximized));
    }
}

#[test]
fn the_generator_never_sticks_at_zero() {
    let mut rng = Rng::seeded(Some(2));
    for _ in 0..1000 {
        assert_ne!(rng.next_u64(), 0);
    }
}

#[test]
fn what_git_prints_is_read() {
    assert_eq!(clean_branch(" main\n"), Some("main".to_string()));
    assert_eq!(clean_branch("HEAD\n"), None);
    assert_eq!(clean_branch("\n"), None);
    assert_eq!(parse_changed_count(" M a\n?? b\n\n"), 2);
    assert_eq!(parse_ahead_behind("2\t3\n"), (3, 2));
    let s = status_from(Some("main"), Some(" M a\n"), Some("2026-07-25T00:00:00Z\n"), None);
    assert!(s.is_git && !s.has_upstream);
    assert_eq!((s.changed_count, s.ahead, s.behind), (1, 0, 0));
    assert!(!status_from(None, None, None, None).is_git);
}

#[test]
fn paths_are_compared_part_by_part() {
    assert!(equal_paths(r"C:\a\.\b\", r"C:\a\b"));
    assert!(!equal_paths(r"C:\a\b", r"C:\a\B"));
    assert!(starts_with(r"C:\a\b\c", r"C:\a\b"));
    assert!(!starts_with(r"C:\a\bc", r"C:\a\b"));
    assert!(starts_with(r"C:\a", r"C:\a"));
    assert_eq!(file_name(r"C:\a\b.tar.gz"), Some("b.tar.gz".to_string()));
    assert_eq!(file_stem(r"C:\a\b.tar.gz"), Some("b.tar".to_string()));
    assert_eq!(parent(r"C:\a\b"), Some(r"C:\a".to_string()));
    assert_eq!(parent(r"C:\"), None);
    assert_eq!(join(r"C:\a", "b"), r"C:\a\b");
    assert_eq!(join(r"C:\a", r"D:\b"), r"D:\b");
    assert!(is_absolute(r"C:\a") && !is_absolute(r"a\b"));
}

#[test]
fn texts_and_numbers_convert() {
    assert_eq!(decimal_text(0), "0");
    assert_eq!(decimal_text(u64::MAX), "18446744073709551615");
    assert_eq!(signed_decimal_text(i64::MIN), "-9223372036854775808");
    assert_eq!(padded_hex_text(0xa), "0A");
    let chars = |s: &str| s.chars().collect::<Vec<char>>();
    assert_eq!(parse_unsigned(&chars("+12"), 20), Some(12));
    assert_eq!(parse_unsigned(&chars("21"), 20), None);
    assert_eq!(parse_unsigned(&chars(""), 20), None);
    assert_eq!(parse_signed(&chars("-3"), -5, 5), Some(-3));
    assert_eq!(parse_signed(&chars("-6"), -5, 5), None);
    assert_eq!(split_text("a,b,,c", ','), vec!["a", "b", "", "c"]);
    assert_eq!(trim_text(" \u{3000}x y\t"), "x y");
    assert_eq!(split_at_last_pair("a::b::c"), Some(("a::b".to_string(), "c".to_string())));
}

#[test]
fn the_last_value_of_a_key_counts() {
    let mut pairs: Vec<(String, i32)> = Vec::new();
    put(&mut pairs, "a", 1);
    put(&mut pairs, "b", 2);
    put(&mut pairs, "a", 3);
    assert_eq!(lookup(&pairs, "a"), Some(3));
    assert_eq!(lookup(&pairs, "b"), Some(2));
    assert_eq!(lookup(&pairs, "c"), None);
}
