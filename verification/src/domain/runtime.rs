//! What is remembered between runs, and the journal of a switch.

use vstd::prelude::*;
use std::collections::HashMap;

use crate::domain::agent::AgentRun;
use crate::domain::placement::{PixelRect, SavedShowState};
use crate::ids::Uuid;

verus! {

/// What is remembered between runs.
#[derive(Clone, Debug)]
pub struct RuntimeState {
    pub current_workset_id: Option<Uuid>,
    /// The live window that each registered window was last seen as.
    pub window_bindings: HashMap<Uuid, isize>,
    /// Where each set was parked, as texts.
    pub auto_slot_assignments: Vec<(String, String)>,
    pub agent_runs: Vec<AgentRun>,
    pub last_seen_monitor_fingerprint: Option<String>,
    pub last_clean_shutdown: bool,
    pub window_binding_session: Option<String>,
}

/// How a window was shown before a switch.
#[derive(Clone, Copy, Debug, PartialEq, Eq, Structural)]
pub struct JournalWindowState {
    pub rect: PixelRect,
    pub show_state: SavedShowState,
}

/// One window that a switch touches.
#[derive(Clone, Copy, Debug, PartialEq, Eq, Structural)]
pub struct JournalWindowEntry {
    pub managed_window_id: Uuid,
    pub hwnd: isize,
    pub process_id: u32,
    pub before: JournalWindowState,
}

#[derive(Clone, Copy, Debug, PartialEq, Eq, Structural)]
pub enum JournalStatus {
    Started,
    RolledBack,
}

/// The version of the journal's layout.
pub const JOURNAL_SCHEMA_VERSION: u32 = 1;

/// Everything needed to take a switch back.
#[derive(Clone, Debug)]
pub struct SwitchJournal {
    pub schema_version: u32,
    pub transaction_id: Uuid,
    pub status: JournalStatus,
    pub from_workset_id: Option<Uuid>,
    pub to_workset_id: Uuid,
    pub created_at: String,
    pub windows: Vec<JournalWindowEntry>,
}

} // verus!
