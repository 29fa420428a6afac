//! Sets of windows and how each window is told apart, started and parked.

use vstd::prelude::*;

use crate::domain::hotkey::HotkeyConfig;
use crate::domain::monitor::AutoSplit;
use crate::domain::placement::SavedPlacement;
use crate::ids::Uuid;

verus! {

/// What a registered window looks like.
#[derive(Clone, Debug)]
pub struct WindowMatcher {
    pub executable_path: String,
    pub process_name: String,
    pub window_class: String,
    pub registered_title: String,
    pub title_contains: Option<String>,
    pub title_regex: Option<String>,
}

#[derive(Clone, Copy, Debug, PartialEq, Eq, Structural)]
pub enum LaunchKind {
    VsCode,
    Browser,
    Generic,
}

/// How a registered window is started again.
#[derive(Clone, Debug)]
pub struct LaunchSpec {
    pub program: String,
    pub args: Vec<String>,
    pub kind: LaunchKind,
    pub aumid: Option<String>,
}

/// One window of a set.
#[derive(Clone, Debug)]
pub struct ManagedWindow {
    pub id: Uuid,
    pub matcher: WindowMatcher,
    pub main_placement: SavedPlacement,
    pub z_order: i32,
    pub launch_spec: Option<LaunchSpec>,
    pub minimize_when_parked: bool,
}

#[derive(Clone, Copy, Debug, PartialEq, Eq, Structural)]
pub enum RepositoryKind {
    Git,
    Directory,
    Workspace,
}

/// Where a set goes while another one is on the main screen.
#[derive(Clone, Copy, Debug, PartialEq, Eq, Structural)]
pub enum ParkingPolicy {
    Auto,
    Fixed { slot_id: Uuid },
    SubScreen { sub_screen_id: Uuid },
}

/// The windows that belong to one repository.
#[derive(Clone, Debug)]
pub struct Workset {
    pub id: Uuid,
    pub name: String,
    pub repository_path: String,
    pub repository_kind: RepositoryKind,
    pub color: String,
    pub sort_order: i32,
    pub direct_hotkey: Option<HotkeyConfig>,
    pub parking_policy: ParkingPolicy,
    pub fullscreen_when_parked: bool,
    pub windows: Vec<ManagedWindow>,
    pub created_at: String,
    pub updated_at: String,
}

/// A parking cell that is kept for one set.
#[derive(Clone, Debug)]
pub struct FixedParkingSlot {
    pub id: Uuid,
    pub monitor_id: String,
    pub grid: AutoSplit,
    pub cell_index: usize,
    pub assigned_workset_id: Uuid,
}

/// A named parking area made of whole monitors or of one cell of a monitor.
#[derive(Clone, Debug)]
pub struct SubScreen {
    pub id: Uuid,
    pub name: String,
    pub monitor_ids: Vec<String>,
    pub split: AutoSplit,
    pub cell_index: usize,
    pub fullscreen: bool,
}

} // verus!
