//! The user's settings and everything that is registered.

use vstd::prelude::*;

use crate::domain::hotkey::HotkeyConfig;
use crate::domain::monitor::SavedMonitor;
use crate::domain::workset::{FixedParkingSlot, SubScreen, Workset};
use crate::text;

verus! {

/// Where the quick switcher pops up.
#[derive(Clone, Copy, Debug, PartialEq, Eq, Structural)]
pub enum PopupLocation {
    CursorMonitorCenter,
    MainMonitorCenter,
}

/// In what order the quick switcher lists the sets.
#[derive(Clone, Copy, Debug, PartialEq, Eq, Structural)]
pub enum SortMode {
    Manual,
    Recent,
    Name,
}

/// What to do about windows on the main screen that belong to no set.
#[derive(Clone, Copy, Debug, PartialEq, Eq, Structural)]
pub enum UnknownWindowPolicy {
    LeaveInPlace,
    Ask,
}

/// What the user has set.
#[derive(Clone, Debug)]
pub struct UserSettings {
    pub quick_switcher_hotkey: HotkeyConfig,
    /// The keys that go to the next and the previous set, with the modifiers of the hotkey above.
    pub cycle_next_key: u32,
    pub cycle_prev_key: u32,
    pub sort_mode: SortMode,
    pub popup_location: PopupLocation,
    pub close_after_switch: bool,
    pub close_on_focus_loss: bool,
    pub start_with_windows: bool,
    pub auto_display_recovery: bool,
    pub unknown_window_policy: UnknownWindowPolicy,
}

/// Everything that is configured.
#[derive(Clone, Debug)]
pub struct AppConfig {
    pub monitors: Vec<SavedMonitor>,
    pub main_monitor_ids: Vec<String>,
    pub sub_screens: Vec<SubScreen>,
    pub fixed_slots: Vec<FixedParkingSlot>,
    pub worksets: Vec<Workset>,
    pub settings: UserSettings,
}

impl AppConfig {
    /// A configuration in which only the settings are made.
    pub fn new_empty(settings: UserSettings) -> (r: AppConfig)
        ensures
            r.settings == settings,
            r.monitors@.len() == 0,
            r.main_monitor_ids@.len() == 0,
            r.sub_screens@.len() == 0,
            r.fixed_slots@.len() == 0,
            r.worksets@.len() == 0,
    {
        AppConfig {
            monitors: Vec::new(),
            main_monitor_ids: Vec::new(),
            sub_screens: Vec::new(),
            fixed_slots: Vec::new(),
            worksets: Vec::new(),
            settings,
        }
    }
}

/// What is wrong with a configuration.
#[derive(Clone, Debug)]
pub enum ConfigValidationError {
    /// The name of a set is empty or too long.
    WorksetNameLength,
    /// Two sets describe the same window.
    DuplicateWindowMatcher { registered_title: String },
    /// Anything else, in words.
    Other(String),
}

/// A set's name has one to eighty characters.
pub open spec fn name_fits(name: Seq<char>) -> bool {
    1 <= name.len() <= 80
}

/// How many of the first `n` sets have a name that does not fit.
pub open spec fn misnamed(worksets: Seq<Workset>, n: nat) -> nat
    decreases n,
{
    if n == 0 {
        0
    } else {
        misnamed(worksets, (n - 1) as nat) + if name_fits(worksets[n - 1].name@) {
            0nat
        } else {
            1
        }
    }
}

/// Finds the sets whose name is empty or too long: one error for each.
pub fn name_errors(worksets: &[Workset]) -> (r: Vec<ConfigValidationError>)
    ensures
        r@.len() == misnamed(worksets@, worksets@.len()),
        forall|i: int| 0 <= i < r@.len() ==> #[trigger] r@[i] is WorksetNameLength,
{
    let mut errors: Vec<ConfigValidationError> = Vec::new();
    let mut i: usize = 0;
    while i < worksets.len()
        invariant
            i <= worksets@.len(),
            errors@.len() == misnamed(worksets@, i as nat),
            forall|k: int| 0 <= k < errors@.len() ==> #[trigger] errors@[k] is WorksetNameLength,
        decreases worksets@.len() - i,
    {
        let length: usize = text::chars_of(worksets[i].name.as_str()).len();
        if length < 1 || length > 80 {
            errors.push(ConfigValidationError::WorksetNameLength);
        }
        i += 1;
    }
    errors
}

} // verus!
