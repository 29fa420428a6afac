//! Registering sets and finding their windows.

use std::collections::HashMap;

use repodeck::application::workset_service::{
    build_managed_window, build_workset, find_git_root, is_duplicate_repository,
    resolve_all_matches, resolve_all_matches_with_bindings, resolve_main_monitor_index,
    resolve_match_path, resolve_repository, resolve_workspace_file, DiskFacts,
    ManagedWindowBuildError, WorkspaceFile, WorkspaceFileError,
};
use repodeck::domain::monitor::MonitorInfo;
use repodeck::domain::placement::{NormalizedRect, PixelRect, SavedPlacement, SavedShowState};
use repodeck::domain::workset::{ManagedWindow, RepositoryKind, WindowMatcher};
use repodeck::ids::Uuid;
use repodeck::windowing::enumerate::TopLevelWindow;
use repodeck::windowing::matcher::{MatchDecision, PlainMatching};

fn fresh_id() -> Uuid {
    uuid::Uuid::new_v4().as_u128()
}

/// A share of a monitor's side, in billionths.
fn unit(share: f64) -> i64 {
    (share * 1_000_000_000.0).round() as i64
}

const DIR: &str = r"C:\tmp";

fn below(dir: &str, name: &str) -> String {
    format!(r"{dir}\{name}")
}

fn nothing_on_disk() -> DiskFacts {
    DiskFacts { git_roots: Vec::new(), workspaces: Vec::new() }
}

/// What a workspace file with this text holds.
fn workspace(text: &str) -> WorkspaceFile {
    let Ok(value) = serde_json::from_str::<serde_json::Value>(text) else {
        return WorkspaceFile::Malformed;
    };
    let Some(folders) = value.get("folders").and_then(|f| f.as_array()) else {
        return WorkspaceFile::Malformed;
    };
    let mut paths = Vec::new();
    for folder in folders {
        match folder.get("path").and_then(|p| p.as_str()) {
            Some(path) => paths.push(path.to_string()),
            None => return WorkspaceFile::Malformed,
        }
    }
    WorkspaceFile::Folders(paths)
}

#[test]
fn find_git_root_walks_up_from_a_subdirectory() {
    let repo_root = below(DIR, "repo");
    let nested = below(&below(&repo_root, "src"), "deep");
    let disk = DiskFacts { git_roots: vec![repo_root.clone()], workspaces: Vec::new() };

    assert_eq!(find_git_root(&disk, &nested), Some(repo_root));
}

#[test]
fn find_git_root_returns_none_without_a_git_directory() {
    let plain = below(DIR, "just-a-folder");

    assert_eq!(find_git_root(&nothing_on_disk(), &plain), None);
}

#[test]
fn resolve_repository_prefers_git_root_over_picked_folder() {
    let repo_root = below(DIR, "repo");
    let nested = below(&below(&repo_root, "crates"), "app");
    let disk = DiskFacts { git_roots: vec![repo_root.clone()], workspaces: Vec::new() };

    let (path, kind) = resolve_repository(&disk, &nested);
    assert_eq!(path, repo_root);
    assert_eq!(kind, RepositoryKind::Git);
}

#[test]
fn resolve_repository_falls_back_to_directory_kind() {
    let plain = below(DIR, "just-a-folder");

    let (path, kind) = resolve_repository(&nothing_on_disk(), &plain);
    assert_eq!(path, plain);
    assert_eq!(kind, RepositoryKind::Directory);
}

#[test]
fn resolve_workspace_file_reads_the_first_folders_absolute_path() {
    let repo = below(DIR, "repo");
    let ws_path = below(DIR, "proj.code-workspace");
    let file = workspace(&format!(
        r#"{{"folders": [{{"name": "proj", "path": "{}"}}], "settings": {{}}}}"#,
        repo.replace('\\', "\\\\")
    ));

    assert_eq!(resolve_workspace_file(&ws_path, &file), Ok(repo));
}

#[test]
fn resolve_workspace_file_resolves_a_relative_path_against_its_own_parent() {
    let repo = below(DIR, "repo");
    let ws_path = below(DIR, "proj.code-workspace");
    let file = workspace(r#"{"folders": [{"path": "repo"}]}"#);

    assert_eq!(resolve_workspace_file(&ws_path, &file), Ok(repo));
}

#[test]
fn resolve_workspace_file_uses_only_the_first_of_multiple_folders() {
    let ws_path = below(DIR, "proj.code-workspace");
    let file = workspace(r#"{"folders": [{"path": "first"}, {"path": "second"}]}"#);

    assert_eq!(resolve_workspace_file(&ws_path, &file), Ok(below(DIR, "first")));
}

#[test]
fn resolve_workspace_file_rejects_a_workspace_with_no_folders() {
    let ws_path = below(DIR, "empty.code-workspace");
    let file = workspace(r#"{"folders": []}"#);

    assert_eq!(resolve_workspace_file(&ws_path, &file), Err(WorkspaceFileError::NoFolders));
}

#[test]
fn resolve_workspace_file_rejects_invalid_json() {
    let ws_path = below(DIR, "broken.code-workspace");
    let file = workspace("not json at all");

    assert_eq!(resolve_workspace_file(&ws_path, &file), Err(WorkspaceFileError::ParseFailed));
}

#[test]
fn resolve_workspace_file_rejects_a_missing_file() {
    let missing = below(DIR, "nope.code-workspace");

    assert_eq!(
        resolve_workspace_file(&missing, &WorkspaceFile::Unreadable),
        Err(WorkspaceFileError::ReadFailed)
    );
}

#[test]
fn resolve_match_path_resolves_a_workspace_kind_to_its_underlying_folder() {
    let repo = below(DIR, "repo");
    let ws_path = below(DIR, "proj.code-workspace");
    let disk = DiskFacts {
        git_roots: Vec::new(),
        workspaces: vec![(ws_path.clone(), workspace(r#"{"folders": [{"path": "repo"}]}"#))],
    };

    assert_eq!(resolve_match_path(&disk, &ws_path, RepositoryKind::Workspace), repo);
}

#[test]
fn resolve_match_path_falls_back_to_the_literal_path_when_the_workspace_file_is_gone() {
    let missing = below(DIR, "gone.code-workspace");

    assert_eq!(
        resolve_match_path(&nothing_on_disk(), &missing, RepositoryKind::Workspace),
        missing
    );
}

#[test]
fn resolve_match_path_returns_non_workspace_kinds_unchanged() {
    let repo = below(DIR, "repo");

    assert_eq!(resolve_match_path(&nothing_on_disk(), &repo, RepositoryKind::Git), repo);
    assert_eq!(resolve_match_path(&nothing_on_disk(), &repo, RepositoryKind::Directory), repo);
}

fn monitor(device_name: &str, bounds: PixelRect) -> MonitorInfo {
    MonitorInfo {
        handle: 0,
        device_name: device_name.to_string(),
        bounds_px: bounds,
        work_area_px: bounds,
        dpi_x: 96,
        dpi_y: 96,
        is_primary: false,
    }
}

#[test]
fn resolve_main_monitor_index_finds_the_monitor_containing_the_point() {
    let monitors = [
        monitor("A", PixelRect::new(0, 0, 1920, 1080)),
        monitor("B", PixelRect::new(1920, 0, 1920, 1080)),
    ];
    let main_ids = vec!["A".to_string(), "B".to_string()];

    assert_eq!(
        resolve_main_monitor_index((100, 100), &monitors, &main_ids),
        Some(0)
    );
    assert_eq!(
        resolve_main_monitor_index((2000, 100), &monitors, &main_ids),
        Some(1)
    );
    assert_eq!(
        resolve_main_monitor_index((5000, 100), &monitors, &main_ids),
        None
    );
}

#[test]
fn build_managed_window_normalizes_against_the_resolved_monitor() {
    let monitors = [monitor("A", PixelRect::new(0, 0, 1920, 1080))];
    let main_ids = vec!["A".to_string()];

    let window = TopLevelWindow {
        hwnd: 42,
        process_id: 100,
        executable_path: Some(String::from(r"C:\tools\code.exe")),
        window_class: "Chrome_WidgetWin_1".to_string(),
        title: "main.rs".to_string(),
        rect_px: PixelRect::new(100, 100, 800, 600),
    };

    let managed = build_managed_window(
        &window,
        PixelRect::new(100, 100, 800, 600),
        SavedShowState::Normal,
        0,
        &monitors,
        &main_ids,
    )
    .unwrap();

    assert_eq!(managed.main_placement.main_monitor_index, 0);
    assert_eq!(managed.main_placement.monitor_id, "A");
    let x = managed.main_placement.normalized_rect.x as f64 / 1_000_000_000.0;
    assert!((x - 100.0 / 1920.0).abs() < 1e-9);
    assert_eq!(
        managed.matcher.executable_path,
        String::from(r"C:\tools\code.exe")
    );
    assert_eq!(managed.matcher.registered_title, "main.rs");
}

#[test]
fn build_managed_window_fails_when_window_is_off_all_main_monitors() {
    let monitors = [monitor("A", PixelRect::new(0, 0, 1920, 1080))];
    let main_ids = vec!["A".to_string()];

    let window = TopLevelWindow {
        hwnd: 42,
        process_id: 100,
        executable_path: None,
        window_class: "X".to_string(),
        title: "Y".to_string(),
        rect_px: PixelRect::new(5000, 5000, 800, 600),
    };

    let result = build_managed_window(
        &window,
        window.rect_px,
        SavedShowState::Normal,
        0,
        &monitors,
        &main_ids,
    );
    assert!(matches!(result, Err(ManagedWindowBuildError::NotOnMainMonitor)));
}

#[test]
fn is_duplicate_repository_matches_exact_path_only() {
    let workset = build_workset(
        "A".to_string(),
        "#fff".to_string(),
        String::from(r"D:\repos\a"),
        RepositoryKind::Git,
        0,
        Vec::new(),
        "2026-07-20T00:00:00Z".to_string(),
    );

    assert!(is_duplicate_repository(
        std::slice::from_ref(&workset),
        r"D:\repos\a"
    ));
    assert!(!is_duplicate_repository(
        &[workset],
        r"D:\repos\b"
    ));
}

fn window_with(hwnd: isize, exe: &str, class: &str, title: &str) -> TopLevelWindow {
    TopLevelWindow {
        hwnd,
        process_id: 1,
        executable_path: Some(String::from(exe)),
        window_class: class.to_string(),
        title: title.to_string(),
        rect_px: PixelRect::new(0, 0, 800, 600),
    }
}

#[test]
fn resolve_all_matches_does_not_let_two_worksets_claim_the_same_window() {
    let matcher_a = WindowMatcher {
        executable_path: String::from(r"C:\code.exe"),
        process_name: "code.exe".to_string(),
        window_class: "Chrome_WidgetWin_1".to_string(),
        registered_title: "repo-a - Visual Studio Code".to_string(),
        title_contains: None,
        title_regex: None,
    };
    let mut matcher_b = matcher_a.clone();
    matcher_b.registered_title = "repo-b - Visual Studio Code".to_string();

    let managed_a = ManagedWindow {
        id: fresh_id(),
        matcher: matcher_a,
        main_placement: SavedPlacement {
            monitor_id: "A".to_string(),
            main_monitor_index: 0,
            normalized_rect: NormalizedRect {
                x: unit(0.0),
                y: unit(0.0),
                width: unit(0.1),
                height: unit(0.1),
            },
            physical_rect_at_capture: PixelRect::new(0, 0, 800, 600),
            show_state: SavedShowState::Normal,
        },
        z_order: 0,
        launch_spec: None,
        minimize_when_parked: false,
    };
    let mut managed_b = managed_a.clone();
    managed_b.id = fresh_id();
    managed_b.matcher = matcher_b;

    let workset_a = build_workset(
        "A".to_string(),
        "#fff".to_string(),
        String::from(r"D:\a"),
        RepositoryKind::Git,
        0,
        vec![managed_a.clone()],
        "2026-07-20T00:00:00Z".to_string(),
    );
    let workset_b = build_workset(
        "B".to_string(),
        "#fff".to_string(),
        String::from(r"D:\b"),
        RepositoryKind::Git,
        1,
        vec![managed_b.clone()],
        "2026-07-20T00:00:00Z".to_string(),
    );
    let live = [window_with(
        1,
        r"C:\code.exe",
        "Chrome_WidgetWin_1",
        "repo-a - Visual Studio Code",
    )];

    let decisions = resolve_all_matches(&PlainMatching {}, &[workset_a, workset_b], &live);

    let decision_a = decisions.get(&managed_a.id).unwrap();
    let decision_b = decisions.get(&managed_b.id).unwrap();
    assert_eq!(*decision_a, MatchDecision::AutoRebind { hwnd: 1 });
    assert_ne!(*decision_b, MatchDecision::AutoRebind { hwnd: 1 });
}

#[test]
fn priority_workset_claims_a_shared_window_before_earlier_order() {
    let matcher = WindowMatcher {
        executable_path: String::from(r"C:\code.exe"),
        process_name: "code.exe".to_string(),
        window_class: "Chrome_WidgetWin_1".to_string(),
        registered_title: "repodeck".to_string(),
        title_contains: None,
        title_regex: None,
    };
    let managed_a = ManagedWindow {
        id: fresh_id(),
        matcher: matcher.clone(),
        main_placement: SavedPlacement {
            monitor_id: "A".to_string(),
            main_monitor_index: 0,
            normalized_rect: NormalizedRect {
                x: unit(0.0),
                y: unit(0.0),
                width: unit(0.1),
                height: unit(0.1),
            },
            physical_rect_at_capture: PixelRect::new(0, 0, 800, 600),
            show_state: SavedShowState::Normal,
        },
        z_order: 0,
        launch_spec: None,
        minimize_when_parked: false,
    };
    let mut managed_b = managed_a.clone();
    managed_b.id = fresh_id();

    let workset_a = build_workset(
        "A".to_string(),
        "#fff".to_string(),
        String::from(r"D:\a"),
        RepositoryKind::Git,
        0,
        vec![managed_a.clone()],
        "2026-07-20T00:00:00Z".to_string(),
    );
    let workset_b = build_workset(
        "B".to_string(),
        "#fff".to_string(),
        String::from(r"D:\b"),
        RepositoryKind::Git,
        1,
        vec![managed_b.clone()],
        "2026-07-20T00:00:00Z".to_string(),
    );
    let b_id = workset_b.id;
    let live = [window_with(
        1,
        r"C:\code.exe",
        "Chrome_WidgetWin_1",
        "repodeck",
    )];
    let decisions = resolve_all_matches_with_bindings(
        &PlainMatching {},
        &[workset_a, workset_b],
        &live,
        &HashMap::new(),
        Some(b_id),
    );
    assert_eq!(
        decisions[&managed_b.id],
        MatchDecision::AutoRebind { hwnd: 1 }
    );
    assert_ne!(
        decisions[&managed_a.id],
        MatchDecision::AutoRebind { hwnd: 1 }
    );
}
