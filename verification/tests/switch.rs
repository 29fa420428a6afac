//! Switching between sets.

use std::cell::RefCell;
use std::collections::HashMap;

use repodeck::application::parking_cells::{distribute_parking, subdivide_for_count};
use repodeck::application::recovery_service::RecoveryReport;
use repodeck::application::sub_screens::{
    stale_sub_occupants, sub_screen_slot_rect, sub_screen_target_rect,
};
use repodeck::application::switch_coordinator::{
    SwitchCoordinator, SwitchEnd, SwitchError, SwitchOutcome, SwitchRequest, SwitchStep,
};
use repodeck::application::window_ops::{WindowError, WindowOps, WindowOpsError};
use repodeck::domain::monitor::{AutoSplit, MonitorInfo, SavedMonitor};
use repodeck::domain::placement::{NormalizedRect, PixelRect, SavedPlacement, SavedShowState};
use repodeck::domain::runtime::RuntimeState;
use repodeck::domain::workset::{
    FixedParkingSlot, ManagedWindow, ParkingPolicy, RepositoryKind, SubScreen, WindowMatcher,
    Workset,
};
use repodeck::ids::Uuid;
use repodeck::windowing::enumerate::TopLevelWindow;
use repodeck::windowing::matcher::PlainMatching;

fn fresh_id() -> Uuid {
    uuid::Uuid::new_v4().as_u128()
}

/// A share of a monitor's side, in billionths.
fn unit(share: f64) -> i64 {
    (share * 1_000_000_000.0).round() as i64
}

#[derive(Clone)]
struct FakeState {
    rect: PixelRect,
    show_state: SavedShowState,
    alive: bool,
}

/// A desktop on paper: windows move and change as asked.
#[derive(Default)]
struct FakeWindowOps {
    windows: RefCell<HashMap<isize, FakeState>>,
    fail_next_batch_move: RefCell<bool>,
    foreground_history: RefCell<Vec<isize>>,
    fullscreen_key_targets: RefCell<Vec<isize>>,
    exit_fullscreen_targets: RefCell<Vec<isize>>,
    z_order_history: RefCell<Vec<(isize, Option<isize>)>>,
}

#[allow(dead_code)]
impl FakeWindowOps {
    fn new() -> Self {
        Self::default()
    }

    fn seed_window(&self, hwnd: isize, rect: PixelRect, show_state: SavedShowState) {
        self.windows.borrow_mut().insert(hwnd, FakeState { rect, show_state, alive: true });
    }

    /// The next batch is moved window by window.
    fn fail_next_batch_move(&self) {
        *self.fail_next_batch_move.borrow_mut() = true;
    }

    fn close_window(&self, hwnd: isize) {
        if let Some(state) = self.windows.borrow_mut().get_mut(&hwnd) {
            state.alive = false;
        }
    }

    fn rect_of(&self, hwnd: isize) -> Option<PixelRect> {
        self.windows.borrow().get(&hwnd).map(|s| s.rect)
    }

    fn show_state_of(&self, hwnd: isize) -> Option<SavedShowState> {
        self.windows.borrow().get(&hwnd).map(|s| s.show_state)
    }

    fn foreground_history(&self) -> Vec<isize> {
        self.foreground_history.borrow().clone()
    }

    fn fullscreen_key_targets(&self) -> Vec<isize> {
        self.fullscreen_key_targets.borrow().clone()
    }

    fn exit_fullscreen_targets(&self) -> Vec<isize> {
        self.exit_fullscreen_targets.borrow().clone()
    }

    fn z_order_history(&self) -> Vec<(isize, Option<isize>)> {
        self.z_order_history.borrow().clone()
    }

    fn show(&self, hwnd: isize, show_state: SavedShowState) {
        if let Some(state) = self.windows.borrow_mut().get_mut(&hwnd) {
            state.show_state = show_state;
        }
    }

    fn put(&self, hwnd: isize, rect: PixelRect) {
        if let Some(state) = self.windows.borrow_mut().get_mut(&hwnd) {
            state.rect = rect;
        }
    }
}

fn no_detail(operation: &str) -> WindowError {
    WindowError { operation: operation.to_string() }
}

impl WindowOps for FakeWindowOps {
    fn get_show_state(&self, hwnd: isize) -> Result<SavedShowState, WindowError> {
        self.show_state_of(hwnd).ok_or_else(|| no_detail("GetWindowPlacement"))
    }

    fn get_normal_rect(&self, hwnd: isize) -> Result<PixelRect, WindowError> {
        self.rect_of(hwnd).ok_or_else(|| no_detail("GetWindowPlacement"))
    }

    fn restore(&self, hwnd: isize) {
        self.show(hwnd, SavedShowState::Normal);
    }

    fn maximize(&self, hwnd: isize) {
        self.show(hwnd, SavedShowState::Maximized);
    }

    fn set_placement(&self, hwnd: isize, rect: PixelRect, maximized: bool, _fill: bool) {
        self.put(hwnd, rect);
        self.show(
            hwnd,
            if maximized { SavedShowState::Maximized } else { SavedShowState::Normal },
        );
    }

    fn minimize(&self, hwnd: isize) {
        self.show(hwnd, SavedShowState::Minimized);
    }

    fn send_fullscreen_keys(&self, hwnd: isize, _refocus: Option<isize>) {
        self.fullscreen_key_targets.borrow_mut().push(hwnd);
    }

    fn exit_fullscreen(&self, hwnd: isize, restore_rect: PixelRect, maximized: bool, fill: bool) {
        self.exit_fullscreen_targets.borrow_mut().push(hwnd);
        self.set_placement(hwnd, restore_rect, maximized, fill);
    }

    fn batch_move(&self, moves: &[(isize, PixelRect)]) -> Result<(), WindowOpsError> {
        let one_by_one = self.fail_next_batch_move.replace(false);
        for &(hwnd, rect) in moves {
            if one_by_one && !self.is_window_alive(hwnd) {
                return Err(WindowOpsError::PerWindowFailed {
                    hwnd,
                    source: no_detail("SetWindowPos"),
                });
            }
            self.put(hwnd, rect);
        }
        Ok(())
    }

    fn set_z_order_after(&self, hwnd: isize, insert_after: Option<isize>) {
        self.z_order_history.borrow_mut().push((hwnd, insert_after));
    }

    fn set_foreground(&self, hwnd: isize) {
        self.foreground_history.borrow_mut().push(hwnd);
    }

    fn is_window_alive(&self, hwnd: isize) -> bool {
        self.windows.borrow().get(&hwnd).is_some_and(|s| s.alive)
    }
}

/// A coordinator, with what it remembers kept in memory.
struct Switcher {
    inner: SwitchCoordinator<FakeWindowOps>,
    runtime: RuntimeState,
}

fn nothing_remembered() -> RuntimeState {
    RuntimeState {
        current_workset_id: None,
        window_bindings: HashMap::new(),
        auto_slot_assignments: Vec::new(),
        agent_runs: Vec::new(),
        last_seen_monitor_fingerprint: None,
        last_clean_shutdown: true,
        window_binding_session: None,
    }
}

impl Switcher {
    fn new(window_ops: FakeWindowOps) -> Self {
        Switcher {
            inner: SwitchCoordinator::new(window_ops, "memory".to_string()),
            runtime: nothing_remembered(),
        }
    }

    fn switch_to(&mut self, request: SwitchRequest) -> Result<SwitchOutcome, SwitchError> {
        let now = "2026-07-20T00:00:00Z".to_string();
        match self.inner.switch_to(&PlainMatching {}, &request, self.runtime.clone(), now)? {
            SwitchStep::AlreadyCurrent(outcome) => Ok(outcome),
            SwitchStep::Journaled(pending) => match self.inner.finish_switch(&request, pending) {
                SwitchEnd::Completed { outcome, runtime } => {
                    self.runtime = runtime;
                    Ok(outcome)
                }
                SwitchEnd::Failed { error, .. } => Err(error),
            },
        }
    }

    fn recover_all_windows(
        &mut self,
        worksets: &[Workset],
        live_monitors: &[MonitorInfo],
        main_monitor_ids: &[String],
        live_windows: &[TopLevelWindow],
    ) -> RecoveryReport {
        let (report, runtime) = self.inner.recover_all_windows(
            &PlainMatching {},
            worksets,
            live_monitors,
            main_monitor_ids,
            live_windows,
            self.runtime.clone(),
        );
        self.runtime = runtime;
        report
    }
}

fn matcher_for(exe: &str, title: &str) -> WindowMatcher {
    WindowMatcher {
        executable_path: exe.into(),
        process_name: exe.to_string(),
        window_class: format!("{exe}-class"),
        registered_title: title.to_string(),
        title_contains: None,
        title_regex: None,
    }
}

fn managed_window(
    exe: &str,
    main_monitor_index: usize,
    rect: NormalizedRect,
    show_state: SavedShowState,
    z_order: i32,
) -> ManagedWindow {
    ManagedWindow {
        id: fresh_id(),
        matcher: matcher_for(exe, exe),
        main_placement: SavedPlacement {
            monitor_id: "MAIN".to_string(),
            main_monitor_index,
            normalized_rect: rect,
            physical_rect_at_capture: PixelRect::new(0, 0, 800, 600),
            show_state,
        },
        z_order,
        launch_spec: None,
        minimize_when_parked: false,
    }
}

fn workset(
    sort_order: i32,
    parking_policy: ParkingPolicy,
    windows: Vec<ManagedWindow>,
) -> Workset {
    Workset {
        id: fresh_id(),
        name: format!("workset-{sort_order}"),
        repository_path: "C:\\repo".into(),
        repository_kind: RepositoryKind::Git,
        color: "#000000".to_string(),
        sort_order,
        direct_hotkey: None,
        parking_policy,
        fullscreen_when_parked: false,
        windows,
        created_at: "2026-07-20T00:00:00Z".to_string(),
        updated_at: "2026-07-20T00:00:00Z".to_string(),
    }
}

fn live_window(hwnd: isize, exe: &str) -> TopLevelWindow {
    TopLevelWindow {
        hwnd,
        process_id: hwnd as u32,
        executable_path: Some(exe.into()),
        window_class: format!("{exe}-class"),
        title: exe.to_string(),
        rect_px: PixelRect::new(0, 0, 800, 600),
    }
}

fn monitor(device_name: &str, x: i32) -> MonitorInfo {
    MonitorInfo {
        handle: 0,
        device_name: device_name.to_string(),
        bounds_px: PixelRect::new(x, 0, 1920, 1080),
        work_area_px: PixelRect::new(x, 0, 1920, 1032),
        dpi_x: 96,
        dpi_y: 96,
        is_primary: x == 0,
    }
}

fn on_some_monitor(rect: PixelRect, monitors: &[PixelRect]) -> bool {
    monitors.iter().any(|m| {
        rect.x >= m.x
            && rect.right() <= m.right()
            && rect.y >= m.y
            && rect.bottom() <= m.bottom()
    })
}

fn assert_never_offscreen(fake: &FakeWindowOps, hwnd: isize, monitors: &[PixelRect]) {
    if fake.show_state_of(hwnd) == Some(SavedShowState::Minimized) {
        return;
    }
    let rect = fake.rect_of(hwnd).expect("window exists");
    assert!(
        on_some_monitor(rect, monitors),
        "hwnd {hwnd} rect {rect:?} is not fully within any monitor"
    );
}

#[test]
fn switching_between_three_worksets_100_times_leaves_nothing_offscreen() {
    let main_rect = NormalizedRect {
        x: unit(0.1),
        y: unit(0.1),
        width: unit(0.3),
        height: unit(0.3),
    };
    let a = workset(
        0,
        ParkingPolicy::Auto,
        vec![managed_window(
            "app-a",
            0,
            main_rect,
            SavedShowState::Normal,
            0,
        )],
    );
    let b = workset(
        1,
        ParkingPolicy::Auto,
        vec![managed_window(
            "app-b",
            0,
            main_rect,
            SavedShowState::Normal,
            0,
        )],
    );
    let c = workset(
        2,
        ParkingPolicy::Auto,
        vec![managed_window(
            "app-c",
            0,
            main_rect,
            SavedShowState::Normal,
            0,
        )],
    );
    let worksets = vec![a.clone(), b.clone(), c.clone()];

    let live_windows = vec![
        live_window(1, "app-a"),
        live_window(2, "app-b"),
        live_window(3, "app-c"),
    ];
    let main = monitor("MAIN", 0);
    let side = monitor("SIDE", 1920);
    let live_monitors = vec![main.clone(), side.clone()];
    let saved_monitors = vec![SavedMonitor {
        stable_id: "SIDE".to_string(),
        device_name: "SIDE".to_string(),
        device_path: None,
        friendly_name: None,
        bounds_px: side.bounds_px,
        work_area_px: side.work_area_px,
        dpi_x: 96,
        dpi_y: 96,
        auto_split: Some(AutoSplit::One),
        excluded: false,
    }];
    let main_monitor_ids = vec!["MAIN".to_string()];

    let fake = FakeWindowOps::new();
    for hwnd in [1isize, 2, 3] {
        fake.seed_window(
            hwnd,
            PixelRect::new(100, 100, 400, 300),
            SavedShowState::Normal,
        );
    }
    let mut coordinator = Switcher::new(fake);

    let ids = [a.id, b.id, c.id];
    for i in 0..100 {
        let target = ids[i % 3];
        coordinator
            .switch_to(SwitchRequest {
                worksets: &worksets,
                fixed_slots: &[],
                sub_screens: &[],
                saved_monitors: &saved_monitors,
                main_monitor_ids: &main_monitor_ids,
                live_monitors: &live_monitors,
                live_windows: &live_windows,
                target_workset_id: target,
            })
            .unwrap_or_else(|e| panic!("switch {i} to {target} failed: {}", e.message()));

        for hwnd in [1isize, 2, 3] {
            assert_never_offscreen(
                coordinator.inner.window_ops.ops(),
                hwnd,
                &[main.work_area_px, side.work_area_px],
            );
        }
    }
}

#[test]
fn batch_move_fallback_recovers_from_a_simulated_batch_failure() {
    let rect = NormalizedRect {
        x: unit(0.1),
        y: unit(0.1),
        width: unit(0.3),
        height: unit(0.3),
    };
    let a = workset(
        0,
        ParkingPolicy::Auto,
        vec![managed_window("app-a", 0, rect, SavedShowState::Normal, 0)],
    );
    let worksets = vec![a.clone()];
    let live_windows = vec![live_window(1, "app-a")];
    let main = monitor("MAIN", 0);
    let live_monitors = vec![main.clone()];
    let main_monitor_ids = vec!["MAIN".to_string()];

    let fake = FakeWindowOps::new();
    fake.seed_window(1, PixelRect::new(0, 0, 100, 100), SavedShowState::Normal);
    fake.fail_next_batch_move();
    let mut coordinator = Switcher::new(fake);

    let outcome = coordinator
        .switch_to(SwitchRequest {
            worksets: &worksets,
            fixed_slots: &[],
            sub_screens: &[],
            saved_monitors: &[],
            main_monitor_ids: &main_monitor_ids,
            live_monitors: &live_monitors,
            live_windows: &live_windows,
            target_workset_id: a.id,
        })
        .expect("fallback should recover from the simulated batch failure");

    assert_eq!(outcome.new_current_workset_id, a.id);
    let final_rect = coordinator.inner.window_ops.ops().rect_of(1).unwrap();
    assert!(on_some_monitor(final_rect, &[main.work_area_px]));
}

#[test]
fn successful_switch_focuses_the_frontmost_window() {
    let rect = NormalizedRect {
        x: unit(0.1),
        y: unit(0.1),
        width: unit(0.2),
        height: unit(0.2),
    };
    let a = workset(
        0,
        ParkingPolicy::Auto,
        vec![
            managed_window("app-a1", 0, rect, SavedShowState::Normal, 0),
            managed_window("app-a2", 0, rect, SavedShowState::Normal, 5), // higher z_order = frontmost
        ],
    );
    let worksets = vec![a.clone()];
    let live_windows = vec![live_window(1, "app-a1"), live_window(2, "app-a2")];
    let main = monitor("MAIN", 0);
    let live_monitors = vec![main.clone()];
    let main_monitor_ids = vec!["MAIN".to_string()];

    let fake = FakeWindowOps::new();
    fake.seed_window(1, PixelRect::new(0, 0, 100, 100), SavedShowState::Normal);
    fake.seed_window(2, PixelRect::new(0, 0, 100, 100), SavedShowState::Normal);
    let mut coordinator = Switcher::new(fake);

    let outcome = coordinator
        .switch_to(SwitchRequest {
            worksets: &worksets,
            fixed_slots: &[],
            sub_screens: &[],
            saved_monitors: &[],
            main_monitor_ids: &main_monitor_ids,
            live_monitors: &live_monitors,
            live_windows: &live_windows,
            target_workset_id: a.id,
        })
        .unwrap();

    assert_eq!(outcome.focused_hwnd, Some(2));
    assert_eq!(coordinator.inner.window_ops.ops().foreground_history(), vec![2]);
}

#[test]
fn fixed_workset_returns_to_the_same_slot_every_time() {
    let rect = NormalizedRect {
        x: unit(0.1),
        y: unit(0.1),
        width: unit(0.2),
        height: unit(0.2),
    };
    let slot_id = fresh_id();
    let fixed = workset(
        0,
        ParkingPolicy::Fixed { slot_id },
        vec![managed_window(
            "app-fixed",
            0,
            rect,
            SavedShowState::Normal,
            0,
        )],
    );
    let auto = workset(
        1,
        ParkingPolicy::Auto,
        vec![managed_window(
            "app-auto",
            0,
            rect,
            SavedShowState::Normal,
            0,
        )],
    );
    let worksets = vec![fixed.clone(), auto.clone()];
    let fixed_slots = vec![FixedParkingSlot {
        id: slot_id,
        monitor_id: "SIDE".to_string(),
        grid: AutoSplit::TwoColumns,
        cell_index: 0,
        assigned_workset_id: fixed.id,
    }];
    let live_windows = vec![live_window(1, "app-fixed"), live_window(2, "app-auto")];
    let main = monitor("MAIN", 0);
    let side = monitor("SIDE", 1920);
    let live_monitors = vec![main.clone(), side.clone()];
    let saved_monitors = vec![SavedMonitor {
        stable_id: "SIDE".to_string(),
        device_name: "SIDE".to_string(),
        device_path: None,
        friendly_name: None,
        bounds_px: side.bounds_px,
        work_area_px: side.work_area_px,
        dpi_x: 96,
        dpi_y: 96,
        auto_split: Some(AutoSplit::TwoColumns),
        excluded: false,
    }];
    let main_monitor_ids = vec!["MAIN".to_string()];

    let fake = FakeWindowOps::new();
    fake.seed_window(1, PixelRect::new(0, 0, 400, 300), SavedShowState::Normal);
    fake.seed_window(2, PixelRect::new(0, 0, 400, 300), SavedShowState::Normal);
    let mut coordinator = Switcher::new(fake);

    let request = |target: Uuid| SwitchRequest {
        worksets: &worksets,
        fixed_slots: &fixed_slots,
        sub_screens: &[],
        saved_monitors: &saved_monitors,
        main_monitor_ids: &main_monitor_ids,
        live_monitors: &live_monitors,
        live_windows: &live_windows,
        target_workset_id: target,
    };

    coordinator.switch_to(request(fixed.id)).unwrap(); // fixed becomes current
    coordinator.switch_to(request(auto.id)).unwrap(); // fixed parks at its slot
    let first_park_rect = coordinator.inner.window_ops.ops().rect_of(1).unwrap();

    coordinator.switch_to(request(fixed.id)).unwrap(); // fixed becomes current again
    coordinator.switch_to(request(auto.id)).unwrap(); // fixed parks again
    let second_park_rect = coordinator.inner.window_ops.ops().rect_of(1).unwrap();

    assert_eq!(first_park_rect, second_park_rect);
}

#[test]
fn recover_all_windows_bypasses_the_switch_lock() {
    let fake = FakeWindowOps::new();
    let mut coordinator = Switcher::new(fake);
    coordinator.inner.switching = true;

    let report = coordinator
        .recover_all_windows(&[], &[], &[], &[]);

    assert!(report.recovered.is_empty());
}

#[test]
fn switch_to_reports_already_in_progress_when_reentered() {
    let fake = FakeWindowOps::new();
    let mut coordinator = Switcher::new(fake);
    coordinator.inner.switching = true;

    let result = coordinator.switch_to(SwitchRequest {
        worksets: &[],
        fixed_slots: &[],
        sub_screens: &[],
        saved_monitors: &[],
        main_monitor_ids: &[],
        live_monitors: &[],
        live_windows: &[],
        target_workset_id: fresh_id(),
    });

    assert!(matches!(result, Err(SwitchError::AlreadyInProgress)));
}

#[test]
fn subdivide_for_count_tiles_without_overlap() {
    let region = PixelRect::new(0, 0, 1000, 400);
    assert_eq!(subdivide_for_count(region, 1), vec![region]);
    let two = subdivide_for_count(region, 2);
    assert_eq!(two.len(), 2);
    assert_eq!(two[0], PixelRect::new(0, 0, 500, 400));
    assert_eq!(two[1], PixelRect::new(500, 0, 500, 400));
    let tall = subdivide_for_count(PixelRect::new(0, 0, 400, 1000), 2);
    assert_eq!(tall[0], PixelRect::new(0, 0, 400, 500));
    assert_eq!(tall[1], PixelRect::new(0, 500, 400, 500));
    let three = subdivide_for_count(region, 3);
    assert_eq!(three.len(), 3);
    assert_eq!(three[0], PixelRect::new(0, 0, 500, 400));
    assert_eq!(three[1], PixelRect::new(500, 0, 500, 200));
    assert_eq!(three[2], PixelRect::new(500, 200, 500, 200));
    let quad = subdivide_for_count(region, 4);
    assert_eq!(quad.len(), 4);
    for (i, a) in quad.iter().enumerate() {
        for b in &quad[i + 1..] {
            let overlap =
                a.x < b.right() && b.x < a.right() && a.y < b.bottom() && b.y < a.bottom();
            assert!(!overlap, "cells {a:?} and {b:?} overlap");
        }
    }
}

#[test]
fn distribute_parking_balances_across_screens_and_subdivides() {
    let screens = vec![
        PixelRect::new(0, 0, 1000, 800),
        PixelRect::new(1000, 0, 1000, 800),
    ];
    let (placements, overflow) = distribute_parking(&screens, &[1, 2, 3, 4, 5]);
    assert!(overflow.is_empty());
    assert_eq!(placements.len(), 5);
    let on0 = placements.iter().filter(|(_, r)| r.x < 1000).count();
    let on1 = placements.iter().filter(|(_, r)| r.x >= 1000).count();
    assert_eq!(on0, 3);
    assert_eq!(on1, 2);
    for (i, (_, a)) in placements.iter().enumerate() {
        for (_, b) in &placements[i + 1..] {
            let overlap =
                a.x < b.right() && b.x < a.right() && a.y < b.bottom() && b.y < a.bottom();
            assert!(!overlap, "{a:?} overlaps {b:?}");
        }
    }
}

#[test]
fn distribute_parking_minimizes_overflow_past_four_per_screen() {
    let screens = vec![PixelRect::new(0, 0, 800, 600)];
    let (placements, overflow) = distribute_parking(&screens, &[1, 2, 3, 4, 5, 6]);
    assert_eq!(placements.len(), 4); // capped at four per screen
    assert_eq!(overflow, vec![5, 6]);
}

#[test]
fn distribute_parking_uses_a_3x2_grid_on_a_qhd_screen() {
    let screens = vec![PixelRect::new(0, 0, 2560, 1440)];
    let (placements, overflow) = distribute_parking(&screens, &[1, 2, 3, 4, 5, 6, 7]);
    assert_eq!(placements.len(), 6);
    assert_eq!(overflow, vec![7]); // the 7th overflows
    for (i, (_, a)) in placements.iter().enumerate() {
        for (_, b) in &placements[i + 1..] {
            let overlap =
                a.x < b.right() && b.x < a.right() && a.y < b.bottom() && b.y < a.bottom();
            assert!(!overlap, "{a:?} overlaps {b:?}");
        }
    }
    assert!(
        placements
            .iter()
            .all(|(_, r)| r.width < 1000 && r.height < 800)
    );
}

#[test]
fn distribute_parking_lights_the_largest_screen_first() {
    let screens = vec![
        PixelRect::new(0, 0, 1920, 1080),    // HD, listed first
        PixelRect::new(1920, 0, 2560, 1440), // QHD, larger — listed second
    ];
    let (placements, overflow) = distribute_parking(&screens, &[1]);
    assert!(overflow.is_empty());
    assert_eq!(placements.len(), 1);
    assert!(
        placements[0].1.x >= 1920,
        "the single window should land on the larger QHD screen, got {:?}",
        placements[0].1
    );
}

#[test]
fn distribute_parking_keeps_windows_largest_when_screens_are_mixed() {
    let screens = vec![
        PixelRect::new(0, 0, 1920, 1080),    // HD
        PixelRect::new(1920, 0, 2560, 1440), // QHD
    ];
    let (placements, overflow) = distribute_parking(&screens, &[1, 2, 3]);
    assert!(overflow.is_empty());
    let on_qhd = placements.iter().filter(|(_, r)| r.x >= 1920).count();
    let on_hd = placements.iter().filter(|(_, r)| r.x < 1920).count();
    assert_eq!(on_qhd, 2, "QHD should take the extra window");
    assert_eq!(on_hd, 1);
}

#[test]
fn stale_sub_occupants_flags_only_foreign_windows_overlapping_the_cell() {
    let cell = PixelRect::new(1920, 0, 1280, 1440); // a sub-screen half
    let incoming: std::collections::HashSet<isize> = [10, 11].into_iter().collect();
    let managed = vec![
        (10, PixelRect::new(1920, 0, 1280, 1440)), // incoming → never evicted
        (20, PixelRect::new(1920, 0, 1280, 1440)), // foreign, on the cell → evict
        (30, PixelRect::new(0, 0, 1920, 1080)),    // foreign, on the main → keep
        (40, PixelRect::new(2000, 100, 400, 300)), // foreign, partly on cell → evict
    ];
    let evictees = stale_sub_occupants(cell, &incoming, &managed);
    assert_eq!(evictees, vec![20, 40]);
}

#[test]
fn simulation_sub_screen_sharers_tile_the_region_without_gaps() {

    let sub = SubScreen {
        id: fresh_id(),
        name: "サブ".to_string(),
        monitor_ids: vec!["SUB".to_string()],
        split: AutoSplit::One,
        cell_index: 0,
        fullscreen: false,
    };
    let policy = ParkingPolicy::SubScreen {
        sub_screen_id: sub.id,
    };
    let live = vec![monitor("SUB", 1920)];
    let region = sub_screen_target_rect(&sub, &live).unwrap();
    let region_area = i64::from(region.width) * i64::from(region.height);
    for n in 1..=4i32 {
        let worksets: Vec<Workset> =
            (0..n).map(|i| workset(i, policy.clone(), vec![])).collect();
        let cells: Vec<PixelRect> = worksets
            .iter()
            .map(|w| sub_screen_slot_rect(&sub, &worksets, w.id, &live).unwrap())
            .collect();
        for (i, a) in cells.iter().enumerate() {
            for b in &cells[i + 1..] {
                let overlap =
                    a.x < b.right() && b.x < a.right() && a.y < b.bottom() && b.y < a.bottom();
                assert!(!overlap, "{n} sharers: {a:?} overlaps {b:?}");
            }
        }
        let covered: i64 = cells
            .iter()
            .map(|r| i64::from(r.width) * i64::from(r.height))
            .sum();
        assert_eq!(covered, region_area, "{n} sharers must tile the sub region exactly");
    }
}

#[test]
fn sub_screen_slot_rect_gives_each_sharer_a_distinct_cell() {

    let sub = SubScreen {
        id: fresh_id(),
        name: "サブ".to_string(),
        monitor_ids: vec!["SUB".to_string()],
        split: AutoSplit::One,
        cell_index: 0,
        fullscreen: false,
    };
    let policy = ParkingPolicy::SubScreen {
        sub_screen_id: sub.id,
    };
    let worksets: Vec<Workset> = (0..5).map(|i| workset(i, policy.clone(), vec![])).collect();
    let live = vec![monitor("SUB", 1920)];

    let cells: Vec<Option<PixelRect>> = worksets
        .iter()
        .map(|w| sub_screen_slot_rect(&sub, &worksets, w.id, &live))
        .collect();
    assert!(cells[0].is_some());
    assert!(cells[3].is_some());
    assert_eq!(cells[4], None);
    let rects: Vec<PixelRect> = cells[..4].iter().map(|c| c.unwrap()).collect();
    for (i, a) in rects.iter().enumerate() {
        for b in &rects[i + 1..] {
            let overlap =
                a.x < b.right() && b.x < a.right() && a.y < b.bottom() && b.y < a.bottom();
            assert!(!overlap, "sharer cells {a:?} and {b:?} overlap");
        }
    }
}
