//! Picking up after an interrupted switch.

use std::cell::RefCell;
use std::collections::HashMap;

use repodeck::application::crash_recovery::{already_succeeded, restore_original_placement};
use repodeck::application::window_ops::{Recorder, WindowError, WindowOps, WindowOpsError};
use repodeck::domain::placement::{NormalizedRect, PixelRect, SavedPlacement, SavedShowState};
use repodeck::domain::runtime::{
    JournalStatus, JournalWindowEntry, JournalWindowState, SwitchJournal,
};
use repodeck::domain::workset::{
    ManagedWindow, ParkingPolicy, RepositoryKind, WindowMatcher, Workset,
};
use repodeck::ids::Uuid;
use repodeck::windowing::enumerate::TopLevelWindow;
use repodeck::windowing::matcher::PlainMatching;

fn fresh_id() -> Uuid {
    uuid::Uuid::new_v4().as_u128()
}

/// A share of a monitor's side, in billionths.
fn unit(share: f64) -> i64 {
    (share * 1_000_000_000.0).round() as i64
}

#[derive(Clone)]
struct FakeState {
    rect: PixelRect,
    show_state: SavedShowState,
    alive: bool,
}

/// A desktop on paper: windows move and change as asked.
#[derive(Default)]
struct FakeWindowOps {
    windows: RefCell<HashMap<isize, FakeState>>,
    fail_next_batch_move: RefCell<bool>,
    foreground_history: RefCell<Vec<isize>>,
    fullscreen_key_targets: RefCell<Vec<isize>>,
    exit_fullscreen_targets: RefCell<Vec<isize>>,
    z_order_history: RefCell<Vec<(isize, Option<isize>)>>,
}

#[allow(dead_code)]
impl FakeWindowOps {
    fn new() -> Self {
        Self::default()
    }

    fn seed_window(&self, hwnd: isize, rect: PixelRect, show_state: SavedShowState) {
        self.windows.borrow_mut().insert(hwnd, FakeState { rect, show_state, alive: true });
    }

    /// The next batch is moved window by window.
    fn fail_next_batch_move(&self) {
        *self.fail_next_batch_move.borrow_mut() = true;
    }

    fn close_window(&self, hwnd: isize) {
        if let Some(state) = self.windows.borrow_mut().get_mut(&hwnd) {
            state.alive = false;
        }
    }

    fn rect_of(&self, hwnd: isize) -> Option<PixelRect> {
        self.windows.borrow().get(&hwnd).map(|s| s.rect)
    }

    fn show_state_of(&self, hwnd: isize) -> Option<SavedShowState> {
        self.windows.borrow().get(&hwnd).map(|s| s.show_state)
    }

    fn foreground_history(&self) -> Vec<isize> {
        self.foreground_history.borrow().clone()
    }

    fn fullscreen_key_targets(&self) -> Vec<isize> {
        self.fullscreen_key_targets.borrow().clone()
    }

    fn exit_fullscreen_targets(&self) -> Vec<isize> {
        self.exit_fullscreen_targets.borrow().clone()
    }

    fn z_order_history(&self) -> Vec<(isize, Option<isize>)> {
        self.z_order_history.borrow().clone()
    }

    fn show(&self, hwnd: isize, show_state: SavedShowState) {
        if let Some(state) = self.windows.borrow_mut().get_mut(&hwnd) {
            state.show_state = show_state;
        }
    }

    fn put(&self, hwnd: isize, rect: PixelRect) {
        if let Some(state) = self.windows.borrow_mut().get_mut(&hwnd) {
            state.rect = rect;
        }
    }
}

fn no_detail(operation: &str) -> WindowError {
    WindowError { operation: operation.to_string() }
}

impl WindowOps for FakeWindowOps {
    fn get_show_state(&self, hwnd: isize) -> Result<SavedShowState, WindowError> {
        self.show_state_of(hwnd).ok_or_else(|| no_detail("GetWindowPlacement"))
    }

    fn get_normal_rect(&self, hwnd: isize) -> Result<PixelRect, WindowError> {
        self.rect_of(hwnd).ok_or_else(|| no_detail("GetWindowPlacement"))
    }

    fn restore(&self, hwnd: isize) {
        self.show(hwnd, SavedShowState::Normal);
    }

    fn maximize(&self, hwnd: isize) {
        self.show(hwnd, SavedShowState::Maximized);
    }

    fn set_placement(&self, hwnd: isize, rect: PixelRect, maximized: bool, _fill: bool) {
        self.put(hwnd, rect);
        self.show(
            hwnd,
            if maximized { SavedShowState::Maximized } else { SavedShowState::Normal },
        );
    }

    fn minimize(&self, hwnd: isize) {
        self.show(hwnd, SavedShowState::Minimized);
    }

    fn send_fullscreen_keys(&self, hwnd: isize, _refocus: Option<isize>) {
        self.fullscreen_key_targets.borrow_mut().push(hwnd);
    }

    fn exit_fullscreen(&self, hwnd: isize, restore_rect: PixelRect, maximized: bool, fill: bool) {
        self.exit_fullscreen_targets.borrow_mut().push(hwnd);
        self.set_placement(hwnd, restore_rect, maximized, fill);
    }

    fn batch_move(&self, moves: &[(isize, PixelRect)]) -> Result<(), WindowOpsError> {
        let one_by_one = self.fail_next_batch_move.replace(false);
        for &(hwnd, rect) in moves {
            if one_by_one && !self.is_window_alive(hwnd) {
                return Err(WindowOpsError::PerWindowFailed {
                    hwnd,
                    source: no_detail("SetWindowPos"),
                });
            }
            self.put(hwnd, rect);
        }
        Ok(())
    }

    fn set_z_order_after(&self, hwnd: isize, insert_after: Option<isize>) {
        self.z_order_history.borrow_mut().push((hwnd, insert_after));
    }

    fn set_foreground(&self, hwnd: isize) {
        self.foreground_history.borrow_mut().push(hwnd);
    }

    fn is_window_alive(&self, hwnd: isize) -> bool {
        self.windows.borrow().get(&hwnd).is_some_and(|s| s.alive)
    }
}

fn journal(
    status: JournalStatus,
    to_workset_id: Uuid,
    windows: Vec<JournalWindowEntry>,
) -> SwitchJournal {
    SwitchJournal {
        schema_version: 1,
        transaction_id: fresh_id(),
        status,
        from_workset_id: None,
        to_workset_id,
        created_at: "2026-07-21T00:00:00Z".to_string(),
        windows,
    }
}

#[test]
fn already_succeeded_when_started_and_current_matches_target() {
    let target = fresh_id();
    let j = journal(JournalStatus::Started, target, Vec::new());
    assert!(already_succeeded(&j, Some(target)));
}

#[test]
fn not_already_succeeded_when_current_differs_from_target() {
    let target = fresh_id();
    let other = fresh_id();
    let j = journal(JournalStatus::Started, target, Vec::new());
    assert!(!already_succeeded(&j, Some(other)));
    assert!(!already_succeeded(&j, None));
}

#[test]
fn not_already_succeeded_when_status_is_rolled_back() {
    let target = fresh_id();
    let j = journal(JournalStatus::RolledBack, target, Vec::new());
    assert!(!already_succeeded(&j, Some(target)));
}

fn matcher(title: &str) -> WindowMatcher {
    WindowMatcher {
        executable_path: String::from(r"C:\code.exe"),
        process_name: "code.exe".to_string(),
        window_class: "Chrome_WidgetWin_1".to_string(),
        registered_title: title.to_string(),
        title_contains: None,
        title_regex: None,
    }
}

fn managed_window(id: Uuid, title: &str) -> ManagedWindow {
    ManagedWindow {
        id,
        matcher: matcher(title),
        main_placement: SavedPlacement {
            monitor_id: "A".to_string(),
            main_monitor_index: 0,
            normalized_rect: NormalizedRect {
                x: unit(0.0),
                y: unit(0.0),
                width: unit(0.5),
                height: unit(0.5),
            },
            physical_rect_at_capture: PixelRect::new(0, 0, 800, 600),
            show_state: SavedShowState::Normal,
        },
        z_order: 0,
        launch_spec: None,
        minimize_when_parked: false,
    }
}

fn workset_with(windows: Vec<ManagedWindow>) -> Workset {
    Workset {
        id: fresh_id(),
        name: "test".to_string(),
        repository_path: String::from(r"D:\repo"),
        repository_kind: RepositoryKind::Git,
        color: "#fff".to_string(),
        sort_order: 0,
        direct_hotkey: None,
        parking_policy: ParkingPolicy::Auto,
        fullscreen_when_parked: false,
        windows,
        created_at: "2026-07-21T00:00:00Z".to_string(),
        updated_at: "2026-07-21T00:00:00Z".to_string(),
    }
}

fn live_window(hwnd: isize, title: &str) -> TopLevelWindow {
    TopLevelWindow {
        hwnd,
        process_id: 1,
        executable_path: Some(String::from(r"C:\code.exe")),
        window_class: "Chrome_WidgetWin_1".to_string(),
        title: title.to_string(),
        rect_px: PixelRect::new(500, 500, 800, 600),
    }
}

#[test]
fn restores_a_matched_window_to_its_journaled_placement() {
    let managed_id = fresh_id();
    let worksets = [workset_with(vec![managed_window(
        managed_id,
        "repo - Visual Studio Code",
    )])];
    let live = [live_window(42, "repo - Visual Studio Code")];

    let ops = FakeWindowOps::new();
    ops.seed_window(
        42,
        PixelRect::new(500, 500, 800, 600),
        SavedShowState::Maximized,
    );

    let before_rect = PixelRect::new(10, 10, 640, 480);
    let entry = JournalWindowEntry {
        managed_window_id: managed_id,
        hwnd: 999, // stale hwnd from the crashed session; must not be trusted
        process_id: 1,
        before: JournalWindowState {
            rect: before_rect,
            show_state: SavedShowState::Normal,
        },
    };
    let j = journal(JournalStatus::Started, fresh_id(), vec![entry]);

    let mut ops = Recorder::new(ops);
    let report = restore_original_placement(&mut ops, &PlainMatching {}, &worksets, &live, &j);

    assert_eq!(report.recovered.len(), 1);
    assert!(report.skipped.is_empty());
    assert_eq!(report.recovered[0].hwnd, 42);
    assert_eq!(ops.ops().rect_of(42), Some(before_rect));
    assert_eq!(ops.ops().show_state_of(42), Some(SavedShowState::Normal));
}

#[test]
fn skips_an_entry_whose_window_no_longer_exists() {
    let managed_id = fresh_id();
    let worksets = [workset_with(vec![managed_window(
        managed_id,
        "repo - Visual Studio Code",
    )])];
    let live: [TopLevelWindow; 0] = []; // the window is gone

    let ops = FakeWindowOps::new();
    let entry = JournalWindowEntry {
        managed_window_id: managed_id,
        hwnd: 999,
        process_id: 1,
        before: JournalWindowState {
            rect: PixelRect::new(0, 0, 100, 100),
            show_state: SavedShowState::Normal,
        },
    };
    let j = journal(JournalStatus::Started, fresh_id(), vec![entry]);

    let mut ops = Recorder::new(ops);
    let report = restore_original_placement(&mut ops, &PlainMatching {}, &worksets, &live, &j);

    assert!(report.recovered.is_empty());
    assert_eq!(report.skipped.len(), 1);
}
