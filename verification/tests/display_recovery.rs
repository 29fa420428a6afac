//! When missing monitors are looked for again.

use repodeck::application::display_recovery_service::{
    decide_recovery, missing_saved_monitors, RecoveryDecision, MAX_RECOVERY_ATTEMPTS,
};
use repodeck::domain::monitor::{AutoSplit, SavedMonitor};
use repodeck::domain::placement::PixelRect;

fn saved(id: &str) -> SavedMonitor {
    SavedMonitor {
        stable_id: id.to_string(),
        device_name: id.to_string(),
        device_path: None,
        friendly_name: None,
        bounds_px: PixelRect::new(0, 0, 1920, 1080),
        work_area_px: PixelRect::new(0, 0, 1920, 1040),
        dpi_x: 96,
        dpi_y: 96,
        auto_split: Some(AutoSplit::One),
        excluded: false,
    }
}

fn names(ids: &[&str]) -> Vec<String> {
    ids.iter().map(|s| (*s).to_string()).collect()
}

#[test]
fn missing_detection_flags_only_absent_monitors() {
    let saved = vec![saved(r"\\.\DISPLAY1"), saved(r"\\.\DISPLAY2")];
    let live = names(&[r"\\.\DISPLAY1"]);
    assert_eq!(
        missing_saved_monitors(&saved, &live),
        vec![r"\\.\DISPLAY2".to_string()]
    );
}

#[test]
fn recover_when_a_saved_monitor_is_missing() {
    let saved = vec![saved(r"\\.\DISPLAY1"), saved(r"\\.\DISPLAY2")];
    let live = names(&[r"\\.\DISPLAY1"]);
    assert_eq!(
        decide_recovery(&saved, &live, 0, true),
        RecoveryDecision::Recover {
            missing: vec![r"\\.\DISPLAY2".to_string()],
            attempt: 1,
        }
    );
}

#[test]
fn no_op_when_topology_matches() {
    let saved = vec![saved(r"\\.\DISPLAY1"), saved(r"\\.\DISPLAY2")];
    let live = names(&[r"\\.\DISPLAY2", r"\\.\DISPLAY1"]);
    assert_eq!(
        decide_recovery(&saved, &live, 0, true),
        RecoveryDecision::UpToDate
    );
}

#[test]
fn extra_live_monitors_do_not_trigger_recovery() {
    let saved = vec![saved(r"\\.\DISPLAY1")];
    let live = names(&[r"\\.\DISPLAY1", r"\\.\DISPLAY2", r"\\.\DISPLAY3"]);
    assert_eq!(
        decide_recovery(&saved, &live, 0, true),
        RecoveryDecision::UpToDate
    );
}

#[test]
fn retry_budget_exhaustion_gives_up() {
    let saved = vec![saved(r"\\.\DISPLAY1"), saved(r"\\.\DISPLAY2")];
    let live = names(&[r"\\.\DISPLAY1"]);
    assert_eq!(
        decide_recovery(&saved, &live, MAX_RECOVERY_ATTEMPTS, true),
        RecoveryDecision::GiveUp {
            missing: vec![r"\\.\DISPLAY2".to_string()],
        }
    );
}

#[test]
fn last_attempt_within_budget_still_recovers() {
    let saved = vec![saved(r"\\.\DISPLAY1"), saved(r"\\.\DISPLAY2")];
    let live = names(&[r"\\.\DISPLAY1"]);
    assert_eq!(
        decide_recovery(&saved, &live, MAX_RECOVERY_ATTEMPTS - 1, true),
        RecoveryDecision::Recover {
            missing: vec![r"\\.\DISPLAY2".to_string()],
            attempt: MAX_RECOVERY_ATTEMPTS,
        }
    );
}

#[test]
fn disabled_setting_short_circuits_even_with_missing_monitors() {
    let saved = vec![saved(r"\\.\DISPLAY1"), saved(r"\\.\DISPLAY2")];
    let live = names(&[r"\\.\DISPLAY1"]);
    assert_eq!(
        decide_recovery(&saved, &live, 0, false),
        RecoveryDecision::Disabled
    );
}

#[test]
fn no_saved_topology_is_a_no_op() {
    let live = names(&[r"\\.\DISPLAY1"]);
    assert_eq!(
        decide_recovery(&[], &live, 0, true),
        RecoveryDecision::NoSavedTopology
    );
}
