//! The soak test and the window watcher.

use repodeck::domain::monitor::MonitorInfo;
use repodeck::domain::placement::{NormalizedRect, PixelRect, SavedPlacement, SavedShowState};
use repodeck::domain::workset::{
    ManagedWindow, ParkingPolicy, RepositoryKind, WindowMatcher, Workset,
};
use repodeck::tools::simtest::{
    CheckCtx, Failure, Intent, Options, Report, Rng, SeenWindow, check, configured_titles,
    confirm_step, covers_most, erode, group_failures, is_configured, is_maximized_like, monitor_of_center,
    overlap_area, parse_intents, rect_matches,
};
use repodeck::tools::winstate::{activity_label, find_editor_window, git_state, parse_args};
use repodeck::windowing::enumerate::TopLevelWindow;

fn words(parts: &[&str]) -> Vec<String> {
    parts.iter().map(|p| p.to_string()).collect()
}

fn monitor(name: &str, x: i32) -> MonitorInfo {
    MonitorInfo {
        handle: 1,
        device_name: name.to_string(),
        bounds_px: PixelRect::new(x, 0, 1920, 1080),
        work_area_px: PixelRect::new(x, 0, 1920, 1040),
        dpi_x: 96,
        dpi_y: 96,
        is_primary: x == 0,
    }
}

fn seen(hwnd: isize, title: &str, visible: Option<PixelRect>) -> SeenWindow {
    SeenWindow { hwnd, title: title.to_string(), minimized: visible.is_none(), visible }
}

fn failure(iter: usize, window: &str, problem: &str) -> Failure {
    Failure {
        iter,
        target: "t".to_string(),
        window: window.to_string(),
        problem: problem.to_string(),
        detail: None,
    }
}

#[test]
fn options_have_defaults_and_can_be_set() {
    let o = Options::parse(&[]);
    assert_eq!((o.iters, o.warmup, o.settle_ms, o.confirm_budget_ms), (300, 30, 1200, 8000));
    assert_eq!(o.out, None);
    let o = Options::parse(&words(&[
        "--iters", "5", "--warmup", "x", "--settle-ms", "7", "--noise", "--confirm-ms", "9",
        "--out", "r.json",
    ]));
    assert_eq!((o.iters, o.warmup, o.settle_ms, o.confirm_budget_ms), (5, 30, 7, 9));
    assert_eq!(o.out, Some("r.json".to_string()));
    assert_eq!(Options::parse(&words(&["--iters"])).iters, 300);
}

#[test]
fn only_configured_windows_count() {
    assert!(is_configured("x repo07 y", &words(&["repo07"])));
    assert!(!is_configured("x repo08 y", &words(&["repo07", ""])));
    let set = Workset {
        id: 1,
        name: "one".to_string(),
        repository_path: String::new(),
        repository_kind: RepositoryKind::Directory,
        color: String::new(),
        sort_order: 0,
        direct_hotkey: None,
        parking_policy: ParkingPolicy::Auto,
        fullscreen_when_parked: false,
        windows: vec![ManagedWindow {
            id: 11,
            matcher: WindowMatcher {
                executable_path: String::new(),
                process_name: String::new(),
                window_class: String::new(),
                registered_title: "alpha".to_string(),
                title_contains: Some("needle".to_string()),
                title_regex: None,
            },
            main_placement: SavedPlacement {
                monitor_id: String::new(),
                main_monitor_index: 0,
                normalized_rect: NormalizedRect { x: 0, y: 0, width: 1, height: 1 },
                physical_rect_at_capture: PixelRect::new(0, 0, 1, 1),
                show_state: SavedShowState::Normal,
            },
            z_order: 0,
            launch_spec: None,
            minimize_when_parked: false,
        }],
        created_at: String::new(),
        updated_at: String::new(),
    };
    assert_eq!(configured_titles(&[set]), words(&["needle"]));
}

#[test]
fn rectangles_are_compared_with_some_slack() {
    let a = PixelRect::new(0, 0, 100, 100);
    assert!(rect_matches(&a, &PixelRect::new(30, -30, 160, 40), 30, 60));
    assert!(!rect_matches(&a, &PixelRect::new(31, 0, 100, 100), 30, 60));
    assert!(!rect_matches(&a, &PixelRect::new(0, 0, 161, 100), 30, 60));
    assert_eq!(overlap_area(&a, &PixelRect::new(50, 50, 100, 100)), 2500);
    assert_eq!(overlap_area(&a, &PixelRect::new(100, 0, 10, 10)), 0);
    assert_eq!(erode(a, 20), PixelRect::new(20, 20, 60, 60));
    assert_eq!(erode(PixelRect::new(0, 0, 30, 100), 20), PixelRect::new(20, 20, 0, 60));
    let area = PixelRect::new(0, 0, 100, 100);
    assert!(!covers_most(&PixelRect::new(0, 0, 85, 100), &area));
    assert!(covers_most(&PixelRect::new(0, 0, 86, 100), &area));
    assert!(!covers_most(&a, &PixelRect::new(0, 0, 0, 100)));
    assert!(is_maximized_like(&PixelRect::new(9, 9, 139, 159), &area));
    assert!(!is_maximized_like(&PixelRect::new(9, 9, 140, 100), &area));
}

#[test]
fn the_monitor_under_a_point_is_found() {
    let monitors = vec![monitor("A", 0), monitor("B", 1920)];
    assert_eq!(monitor_of_center(&monitors, (1920, 5)).unwrap().device_name, "B");
    assert!(monitor_of_center(&monitors, (-1, 5)).is_none());
}

#[test]
fn intents_are_read_from_the_log() {
    let log = "noise\n\
        park window into cell hwnd=12 rect=PixelRect { x: -5, y: 6, width: 70, height: 80 }\n\
        restore target window to main hwnd=13 PixelRect { x: 1, y: 2, width: 3, height: 4 }\n\
        no room, minimizing hwnd=-14\n\
        tiling target across main hwnd=15 PixelRect { x: 1, y: 2 }\n";
    let intents = parse_intents(log);
    assert_eq!(intents.len(), 3);
    assert_eq!(intents[0].0, 12);
    assert!(matches!(intents[0].1, Intent::Fill(r) if r == PixelRect::new(-5, 6, 70, 80)));
    assert_eq!(intents[1].0, 13);
    assert!(matches!(intents[1].1, Intent::Main(r) if r == PixelRect::new(1, 2, 3, 4)));
    assert_eq!(intents[2].0, -14);
    assert!(matches!(intents[2].1, Intent::Minimize));
}

#[test]
fn every_way_to_go_wrong_is_reported() {
    let monitors = vec![monitor("A", 0), monitor("B", 1920)];
    let main_ids = words(&["A"]);
    let ctx = CheckCtx { iter: 3, target_name: "one", main_ids: &main_ids, monitors: &monitors };
    let intents = vec![
        (1, Intent::Fill(PixelRect::new(1920, 0, 960, 1040))),
        (2, Intent::Minimize),
        (3, Intent::Main(PixelRect::new(0, 0, 1920, 1040))),
        (4, Intent::Main(PixelRect::new(1920, 0, 960, 1040))),
        (9, Intent::Minimize),
    ];
    let windows = vec![
        seen(1, "parked", Some(PixelRect::new(1980, 0, 960, 1040))),
        seen(2, "overflow", Some(PixelRect::new(5000, 0, 100, 100))),
        seen(3, "target", Some(PixelRect::new(0, 0, 500, 500))),
        seen(4, "strayed", Some(PixelRect::new(6000, 0, 100, 100))),
        seen(5, "forgotten", Some(PixelRect::new(7000, 0, 200, 200))),
        seen(6, "upon it", Some(PixelRect::new(7000, 0, 200, 200))),
    ];
    let found = check(&ctx, &intents, &windows);
    let told: Vec<(&str, &str)> =
        found.iter().map(|f| (f.window.as_str(), f.problem.as_str())).collect();
    assert_eq!(
        told,
        vec![
            ("parked", "drifted from its parking cell"),
            ("overflow", "should be minimized (overflow) but is not"),
            ("target", "target on main but not (near-)full monitor"),
            ("strayed", "target restored onto a non-main monitor"),
            ("forgotten", "live SET window not managed this switch (unmatched / left in place)"),
            ("upon it", "live SET window not managed this switch (unmatched / left in place)"),
            ("forgotten × upon it", "two visible windows overlap"),
        ]
    );
    assert_eq!((found[0].iter, found[0].target.as_str()), (3, "one"));

    let good = vec![
        seen(1, "parked", Some(PixelRect::new(1925, 3, 950, 1030))),
        seen(2, "overflow", None),
        seen(3, "target", Some(PixelRect::new(-8, -8, 1936, 1056))),
    ];
    assert!(check(&ctx, &intents[..3], &good).is_empty());
}

#[test]
fn the_generator_is_a_xorshift() {
    let mut rng = Rng::seeded(Some(0));
    assert_eq!(rng.0, 1);
    assert_eq!(rng.next_u64(), 1_082_269_761);
    let mut rng = Rng::seeded(Some(42));
    for _ in 0..50 {
        assert!(rng.below(3) < 3);
        let picked = rng.pick(3, Some(1));
        assert_ne!(picked, Some(1));
    }
    assert_eq!(Rng::seeded(None).0, 0x9E37_79B9_7F4A_7C15);
}

#[test]
fn a_failed_check_is_repeated_within_its_budget() {
    assert_eq!(confirm_step(2, 0, 8000), Some(1000));
    assert_eq!(confirm_step(1, 7500, 8000), Some(8500));
    assert_eq!(confirm_step(1, 8000, 8000), None);
    assert_eq!(confirm_step(0, 0, 8000), None);
    assert_eq!(confirm_step(1, u64::MAX - 1, u64::MAX), Some(u64::MAX));
}

#[test]
fn settled_failures_are_counted_up_to_the_largest_number() {
    let mut report = Report::new(1);
    report.note_switch(usize::MAX, vec![]);
    report.note_switch(5, vec![failure(1, "w", "p")]);
    assert_eq!((report.transient, report.failures.len()), (usize::MAX, 1));
}

#[test]
fn a_report_counts_and_is_written_out() {
    let mut report = Report::new(2);
    report.note_noop();
    report.note_switch(0, vec![]);
    report.note_switch(3, vec![failure(4, "say \"hi\"\t", "p")]);
    assert_eq!((report.noops, report.switches, report.transient), (1, 2, 2));
    assert_eq!(
        report.to_json(),
        "{\"worksets\":2,\"switches\":2,\"noops\":1,\"transient\":2,\"failures\":[\
         {\"iter\":4,\"target\":\"t\",\"window\":\"say \\\"hi\\\"\\t\",\"problem\":\"p\"}]}"
    );
    assert_eq!(
        Report::new(1).to_json(),
        "{\"worksets\":1,\"switches\":0,\"noops\":0,\"transient\":0,\"failures\":[]}"
    );
}

#[test]
fn failures_are_grouped_by_window_and_problem() {
    let failures = vec![
        failure(2, "b", "x"),
        failure(3, "a", "y"),
        failure(4, "b", "x"),
        failure(5, "b", "a"),
    ];
    let groups = group_failures(&failures);
    let told: Vec<(&str, &str, usize, usize)> = groups
        .iter()
        .map(|g| (g.window.as_str(), g.problem.as_str(), g.count, g.first_iter))
        .collect();
    assert_eq!(told, vec![("a", "y", 1, 3), ("b", "a", 1, 5), ("b", "x", 2, 2)]);
}

#[test]
fn the_watcher_reads_its_arguments() {
    let o = parse_args(&[], Some(r"C:\here".to_string()));
    assert_eq!((o.title.as_str(), o.secs), ("repodeck", 30));
    assert_eq!((o.folder, o.out), (Some(r"C:\here".to_string()), None));
    let o = parse_args(
        &words(&["--title", "x", "--secs", "9", "--out", "log", "--folder"]),
        Some(r"C:\here".to_string()),
    );
    assert_eq!((o.title.as_str(), o.secs), ("x", 9));
    assert_eq!((o.folder, o.out), (None, Some("log".to_string())));
}

#[test]
fn the_watcher_finds_the_editor() {
    let window = |hwnd: isize, exe: Option<&str>, title: &str| TopLevelWindow {
        hwnd,
        process_id: 1,
        executable_path: exe.map(str::to_string),
        window_class: "C".to_string(),
        title: title.to_string(),
        rect_px: PixelRect::new(0, 0, 1, 1),
    };
    let windows = vec![
        window(1, None, "repodeck"),
        window(2, Some(r"C:\x\notepad.exe"), "repodeck"),
        window(3, Some(r"C:\x\Code.exe"), "other"),
        window(4, Some(r"C:\x\Code.exe"), "main.rs - repodeck"),
    ];
    assert_eq!(find_editor_window(&windows, "repodeck").unwrap().hwnd, 4);
    assert!(find_editor_window(&windows, "nothing").is_none());
}

#[test]
fn the_watcher_tells_activity_and_repository() {
    assert_eq!(activity_label(2_999_999_999), "RUNNING");
    assert_eq!(activity_label(3_000_000_000), "WAITING-INPUT");
    assert_eq!(activity_label(90_000_000_000), "IDLE");
    assert_eq!(git_state(Some("main"), 2), "git=[branch=main dirty=2]");
    assert_eq!(git_state(None, 0), "git=[branch=? dirty=0]");
}
