//! Starting programs and finding their windows.

use std::collections::HashSet;

use repodeck::application::launch_service::{
    browser_identity_arg, build_launch_spec, classify, closes_only_by_kill, declared_title_needle,
    extract_vscode_folder, find_launched_window, normalize_url, retitle_declared_vscode_windows,
    split_registered_args, store_app_aumid, vscode_folder_matches_title,
};
use repodeck::application::workset_service::build_workset;
use repodeck::domain::placement::{NormalizedRect, PixelRect, SavedPlacement, SavedShowState};
use repodeck::domain::workset::{
    LaunchKind, LaunchSpec, ManagedWindow, RepositoryKind, WindowMatcher,
};
use repodeck::ids::Uuid;
use repodeck::windowing::enumerate::TopLevelWindow;

fn fresh_id() -> Uuid {
    uuid::Uuid::new_v4().as_u128()
}

/// A share of a monitor's side, in billionths.
fn unit(share: f64) -> i64 {
    (share * 1_000_000_000.0).round() as i64
}

fn window(hwnd: isize, exe: &str, class: &str) -> TopLevelWindow {
    TopLevelWindow {
        hwnd,
        process_id: 100,
        executable_path: Some(String::from(exe)),
        window_class: class.to_string(),
        title: "t".to_string(),
        rect_px: PixelRect::new(0, 0, 800, 600),
    }
}

#[test]
fn classify_detects_vscode_and_browsers_case_insensitively() {
    assert_eq!(classify(r"C:\VS\Code.exe"), LaunchKind::VsCode);
    assert_eq!(
        classify(r"C:\ch\CHROME.EXE"),
        LaunchKind::Browser
    );
    assert_eq!(classify(r"C:\e\msedge.exe"), LaunchKind::Browser);
    assert_eq!(
        classify(r"C:\x\notepad.exe"),
        LaunchKind::Generic
    );
    assert_eq!(classify(""), LaunchKind::Generic);
}

#[test]
fn normalize_url_adds_https_when_scheme_missing() {
    assert_eq!(normalize_url("example.com/x"), "https://example.com/x");
    assert_eq!(normalize_url("  example.com  "), "https://example.com");
    assert_eq!(normalize_url("http://a.b"), "http://a.b");
    assert_eq!(normalize_url("https://a.b/c"), "https://a.b/c");
}

#[test]
fn vscode_spec_uses_repository_path_as_arg() {
    let spec = build_launch_spec(
        r"C:\VS\Code.exe",
        Some(r"D:\repo"),
        None,
    );
    assert_eq!(spec.kind, LaunchKind::VsCode);
    assert_eq!(spec.program, String::from(r"C:\VS\Code.exe"));
    assert_eq!(spec.args, vec!["-n".to_string(), r"D:\repo".to_string()]);
    assert_eq!(spec.aumid, None);
}

#[test]
fn vscode_spec_takes_a_code_workspace_file_too() {
    let spec = build_launch_spec(
        r"C:\VS\Code.exe",
        Some(r"D:\repo\repo.code-workspace"),
        None,
    );
    assert_eq!(
        spec.args,
        vec!["-n".to_string(), r"D:\repo\repo.code-workspace".to_string()]
    );
}

#[test]
fn vscode_spec_without_repo_has_no_args() {
    let spec = build_launch_spec(r"C:\VS\Code.exe", None, None);
    assert!(spec.args.is_empty());
}

#[test]
fn vscode_folder_is_accepted_only_when_the_title_names_it() {
    assert!(vscode_folder_matches_title(
        r"C:\code\test\repo01",
        "repo01 - Visual Studio Code"
    ));
    assert!(vscode_folder_matches_title(
        r"C:\code\test\repo08\repo08.code-workspace",
        "repo08 (ワークスペース) [WS repo08]"
    ));
    assert!(!vscode_folder_matches_title(
        r"C:\code\test\repo01",
        "repo07 - Visual Studio Code"
    ));
    assert!(!vscode_folder_matches_title(
        "",
        "repo01 - Visual Studio Code"
    ));
}

#[test]
fn store_app_aumid_is_derived_version_independently() {
    let exe = r"C:\Program Files\WindowsApps\OpenAI.Codex_26.715.4045.0_x64__2p2nqsd0c76g0\app\ChatGPT.exe";
    assert_eq!(
        store_app_aumid(exe).as_deref(),
        Some("OpenAI.Codex_2p2nqsd0c76g0!App")
    );
    let updated = r"C:\Program Files\WindowsApps\OpenAI.Codex_99.0.0.0_x64__2p2nqsd0c76g0\app\ChatGPT.exe";
    assert_eq!(store_app_aumid(updated), store_app_aumid(exe));
}

#[test]
fn store_app_aumid_is_none_for_ordinary_executables() {
    assert_eq!(store_app_aumid(r"C:\VS\Code.exe"), None);
    assert_eq!(
        store_app_aumid(r"C:\code\tool\LibreHardwareMonitor\publish\LibreHardwareMonitor.Windows.Forms.exe"),
        None
    );
    assert_eq!(store_app_aumid(""), None);
}

#[test]
fn store_app_spec_carries_the_aumid() {
    let spec = build_launch_spec(
        r"C:\Program Files\WindowsApps\OpenAI.Codex_26.715.4045.0_x64__2p2nqsd0c76g0\app\ChatGPT.exe",
        None,
        None,
    );
    assert_eq!(spec.kind, LaunchKind::Generic);
    assert_eq!(
        spec.aumid.as_deref(),
        Some("OpenAI.Codex_2p2nqsd0c76g0!App")
    );
}

#[test]
fn browser_spec_normalizes_the_captured_url() {
    let spec = build_launch_spec(
        r"C:\ch\chrome.exe",
        None,
        Some("example.com/path"),
    );
    assert_eq!(spec.kind, LaunchKind::Browser);
    assert_eq!(
        spec.args,
        vec![
            "--new-window".to_string(),
            "https://example.com/path".to_string()
        ]
    );
}

#[test]
fn firefox_uses_single_dash_new_window_flag() {
    let spec = build_launch_spec(r"C:\ff\firefox.exe", None, Some("https://a.b"));
    assert_eq!(
        spec.args,
        vec!["-new-window".to_string(), "https://a.b".to_string()]
    );
}

#[test]
fn extract_vscode_folder_reads_the_positional_path() {
    assert_eq!(
        extract_vscode_folder(
            r#""C:\Users\me\AppData\Local\Programs\Microsoft VS Code\Code.exe" "D:\work\my repo""#
        ),
        Some(r"D:\work\my repo".to_string())
    );
}

#[test]
fn extract_vscode_folder_skips_flags_and_uris() {
    assert_eq!(
        extract_vscode_folder(r#""Code.exe" --new-window D:\repo"#),
        Some(r"D:\repo".to_string())
    );
    assert_eq!(
        extract_vscode_folder(r#""Code.exe" --folder-uri file:///D:/repo"#),
        None
    );
}

#[test]
fn extract_vscode_folder_none_for_a_bare_window() {
    assert_eq!(extract_vscode_folder(r#""C:\x\Code.exe""#), None);
}

#[test]
fn declared_window_with_no_class_binds_on_the_executable_alone() {
    let exe = r"C:\tool\LibreHardwareMonitor.Windows.Forms.exe";
    let after = vec![window(11, exe, "WindowsForms10.Window.8.app.0.1")];
    let found =
        find_launched_window(&after, &HashSet::new(), &HashSet::new(), exe, "");
    assert_eq!(found.map(|w| w.hwnd), Some(11));
}

#[test]
fn only_a_newly_appeared_unclaimed_window_is_taken() {
    let exe = r"C:\x\mstsc.exe";
    let after = vec![
        window(1, exe, "TscShellContainerClass"),
        window(2, exe, "TscShellContainerClass"),
    ];
    let before: HashSet<isize> = [1].into_iter().collect();
    let first = find_launched_window(&after, &before, &HashSet::new(), exe, "");
    assert_eq!(first.map(|w| w.hwnd), Some(2));
    let claimed: HashSet<isize> = [2].into_iter().collect();
    assert!(find_launched_window(&after, &before, &claimed, exe, "").is_none());
}

#[test]
fn a_known_class_narrows_the_choice_but_does_not_gate_it() {
    let exe = r"C:\VS\Code.exe";
    let after = vec![
        window(1, exe, "OtherClass"),
        window(2, exe, "Chrome_WidgetWin_1"),
    ];
    let found = find_launched_window(
        &after,
        &HashSet::new(),
        &HashSet::new(),
        exe,
        "Chrome_WidgetWin_1",
    );
    assert_eq!(found.map(|w| w.hwnd), Some(2));
    let stale = vec![window(
        3,
        r"C:\tool\LHM.exe",
        "WindowsForms10.Window.8.app.0.21b46d2_r3_ad1",
    )];
    let found = find_launched_window(
        &stale,
        &HashSet::new(),
        &HashSet::new(),
        r"C:\tool\LHM.exe",
        "WindowsForms10.Window.8.app.0.aabbcc_r6_ad1",
    );
    assert_eq!(found.map(|w| w.hwnd), Some(3));
}

#[test]
fn store_app_falls_back_to_the_file_name_when_the_version_directory_moved() {
    let registered = r"C:\Program Files\WindowsApps\OpenAI.Codex_26.715.4045.0_x64__2p2nqsd0c76g0\app\ChatGPT.exe";
    let running = r"C:\Program Files\WindowsApps\OpenAI.Codex_99.0.0.0_x64__2p2nqsd0c76g0\app\ChatGPT.exe";
    let after = vec![window(7, running, "WinUIDesktopWin32WindowClass")];
    let found = find_launched_window(
        &after,
        &HashSet::new(),
        &HashSet::new(),
        registered,
        "",
    );
    assert_eq!(found.map(|w| w.hwnd), Some(7));
}

#[test]
fn migration_swaps_the_app_name_needle_for_the_open_folder() {

    fn declared(app_name: &str, spec: Option<LaunchSpec>) -> ManagedWindow {
        ManagedWindow {
            id: fresh_id(),
            matcher: WindowMatcher {
                executable_path: String::from(r"C:\x\app.exe"),
                process_name: "app.exe".to_string(),
                window_class: String::new(),
                registered_title: app_name.to_string(),
                title_contains: Some(app_name.to_string()),
                title_regex: None,
            },
            main_placement: SavedPlacement {
                monitor_id: "A".to_string(),
                main_monitor_index: 0,
                normalized_rect: NormalizedRect {
                    x: unit(0.0),
                    y: unit(0.0),
                    width: unit(1.0),
                    height: unit(1.0),
                },
                physical_rect_at_capture: PixelRect::new(0, 0, 0, 0),
                show_state: SavedShowState::Normal,
            },
            z_order: 0,
            launch_spec: spec,
            minimize_when_parked: false,
        }
    }

    let code = declared(
        "Visual Studio Code",
        Some(build_launch_spec(
            r"C:\VS\Code.exe",
            Some(r"C:\code\portfolio\repodeck"),
            None,
        )),
    );
    let workspace = declared(
        "Visual Studio Code",
        Some(build_launch_spec(
            r"C:\VS\Code.exe",
            Some(r"C:\ws\02_資料.code-workspace"),
            None,
        )),
    );
    let brave = declared(
        "Brave",
        Some(build_launch_spec(
            r"C:\brave\brave.exe",
            None,
            Some("https://www.youtube.com/"),
        )),
    );
    let mut worksets = vec![build_workset(
        "S".to_string(),
        "#fff".to_string(),
        String::from(r"D:\s"),
        RepositoryKind::Git,
        0,
        vec![code.clone(), workspace.clone(), brave.clone()],
        "2026-07-20T00:00:00Z".to_string(),
    )];

    assert_eq!(retitle_declared_vscode_windows(&mut worksets), 2);
    let windows = &worksets[0].windows;
    assert_eq!(
        windows[0].matcher.title_contains.as_deref(),
        Some("repodeck")
    );
    assert_eq!(
        windows[1].matcher.title_contains.as_deref(),
        Some("02_資料")
    );
    assert_eq!(windows[2].matcher.title_contains.as_deref(), Some("Brave"));
    assert_eq!(retitle_declared_vscode_windows(&mut worksets), 0);
}

#[test]
fn only_remote_desktop_is_closed_by_killing_its_process() {
    assert!(closes_only_by_kill(r"C:\Windows\System32\mstsc.exe"));
    assert!(closes_only_by_kill(r"C:\Windows\System32\MSTSC.EXE"));
    assert!(!closes_only_by_kill(r"C:\VS\Code.exe"));
    assert!(!closes_only_by_kill(r"C:\brave\brave.exe"));
    assert!(!closes_only_by_kill(""));
}

#[test]
fn registered_args_are_split_respecting_quotes() {
    assert_eq!(
        split_registered_args(r#"--user-data-dir="D:\Brave Data\開発""#),
        vec![r"--user-data-dir=D:\Brave Data\開発".to_string()]
    );
    assert_eq!(
        split_registered_args("--incognito --new-window"),
        vec!["--incognito".to_string(), "--new-window".to_string()]
    );
    assert!(split_registered_args("").is_empty());
}

#[test]
fn only_user_data_dir_identifies_a_browser_window() {
    let args = vec![
        r"--user-data-dir=D:\BraveData\dev".to_string(),
        "--new-window".to_string(),
    ];
    assert_eq!(
        browser_identity_arg(&args).map(String::as_str),
        Some(r"--user-data-dir=D:\BraveData\dev")
    );
    let profile_only = vec![
        "--profile-directory=Profile 1".to_string(),
        "--new-window".to_string(),
    ];
    assert_eq!(browser_identity_arg(&profile_only), None);
    assert_eq!(browser_identity_arg(&["--new-window".to_string()]), None);
}

#[test]
fn declared_title_needle_is_the_vscode_folder_and_nothing_else() {
    assert_eq!(
        declared_title_needle(LaunchKind::VsCode, r"C:\code\test\repo01"),
        Some("repo01".to_string())
    );
    assert_eq!(
        declared_title_needle(LaunchKind::VsCode, r"C:\code\repo08\repo08.code-workspace"),
        Some("repo08".to_string())
    );
    assert_eq!(declared_title_needle(LaunchKind::VsCode, ""), None);
    assert_eq!(
        declared_title_needle(LaunchKind::Browser, "https://example.com"),
        None
    );
    assert_eq!(declared_title_needle(LaunchKind::Generic, "--hud"), None);
}

#[test]
fn generic_spec_relaunches_the_bare_exe() {
    let spec = build_launch_spec(
        r"C:\x\notepad.exe",
        Some(r"D:\r"),
        None,
    );
    assert_eq!(spec.kind, LaunchKind::Generic);
    assert!(spec.args.is_empty());
}
