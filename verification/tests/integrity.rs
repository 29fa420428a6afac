//! Bindings that contradict what they are bound to.

use std::collections::HashMap;

use repodeck::application::integrity_service::{
    check_and_repair, detect, indistinguishable, repair, Anomaly,
};
use repodeck::domain::placement::{NormalizedRect, PixelRect, SavedPlacement, SavedShowState};
use repodeck::domain::workset::{
    ManagedWindow, ParkingPolicy, RepositoryKind, WindowMatcher, Workset,
};
use repodeck::ids::Uuid;
use repodeck::windowing::enumerate::TopLevelWindow;
use repodeck::windowing::matcher::PlainMatching;

fn fresh_id() -> Uuid {
    uuid::Uuid::new_v4().as_u128()
}

/// A share of a monitor's side, in billionths.
fn unit(share: f64) -> i64 {
    (share * 1_000_000_000.0).round() as i64
}

fn managed(id: Uuid, exe: &str, needle: Option<&str>) -> ManagedWindow {
    ManagedWindow {
        id,
        matcher: WindowMatcher {
            executable_path: String::from(exe),
            process_name: "x.exe".to_string(),
            window_class: "Chrome_WidgetWin_1".to_string(),
            registered_title: "App".to_string(),
            title_contains: needle.map(str::to_string),
            title_regex: None,
        },
        main_placement: SavedPlacement {
            monitor_id: "MAIN".to_string(),
            main_monitor_index: 0,
            normalized_rect: NormalizedRect {
                x: unit(0.0),
                y: unit(0.0),
                width: unit(1.0),
                height: unit(1.0),
            },
            physical_rect_at_capture: PixelRect::new(0, 0, 800, 600),
            show_state: SavedShowState::Normal,
        },
        z_order: 0,
        launch_spec: None,
        minimize_when_parked: false,
    }
}

fn workset(name: &str, windows: Vec<ManagedWindow>) -> Workset {
    Workset {
        id: fresh_id(),
        name: name.to_string(),
        repository_path: r"C:\repo".into(),
        repository_kind: RepositoryKind::Git,
        color: "#000000".to_string(),
        sort_order: 0,
        direct_hotkey: None,
        parking_policy: ParkingPolicy::Auto,
        fullscreen_when_parked: false,
        windows,
        created_at: "2026-07-29T00:00:00Z".to_string(),
        updated_at: "2026-07-29T00:00:00Z".to_string(),
    }
}

fn live(hwnd: isize, exe: &str, title: &str) -> TopLevelWindow {
    TopLevelWindow {
        hwnd,
        process_id: 1,
        executable_path: Some(String::from(exe)),
        window_class: "Chrome_WidgetWin_1".to_string(),
        title: title.to_string(),
        rect_px: PixelRect::new(0, 0, 800, 600),
    }
}

const CODE: &str = r"C:\Code\Code.exe";
const BRAVE: &str = r"C:\Brave\brave.exe";
#[test]
fn a_binding_that_contradicts_its_own_needle_is_dropped() {
    let entry = fresh_id();
    let worksets = vec![workset(
        "repodeck",
        vec![managed(entry, CODE, Some("repodeck"))],
    )];
    let live_windows = vec![live(67630, CODE, "02_求解・高速化 (ワークスペース)")];
    let mut bindings = HashMap::from([(entry, 67630)]);

    let report = check_and_repair(&PlainMatching {}, &worksets, &live_windows, &mut bindings);

    assert_eq!(report.dropped_bindings(), 1);
    assert!(bindings.is_empty(), "捨てて付け直させる");
    assert!(matches!(
        report.anomalies.first(),
        Some(Anomaly::ContradictedBinding { hwnd: 67630, .. })
    ));
}

#[test]
fn a_binding_that_still_satisfies_its_needle_is_left_alone() {
    let entry = fresh_id();
    let worksets = vec![workset(
        "repodeck",
        vec![managed(entry, CODE, Some("repodeck"))],
    )];
    let live_windows = vec![live(264584, CODE, "main.rs - repodeck")];
    let mut bindings = HashMap::from([(entry, 264584)]);

    let report = check_and_repair(&PlainMatching {}, &worksets, &live_windows, &mut bindings);

    assert!(report.anomalies.iter().all(|a| !a.is_repairable()));
    assert_eq!(bindings.get(&entry), Some(&264584));
}

#[test]
fn sharing_one_window_without_evidence_drops_every_unjustified_holder() {
    let (a, b) = (fresh_id(), fresh_id());
    let worksets = vec![
        workset("動画", vec![managed(a, BRAVE, None)]),
        workset("repodeck", vec![managed(b, BRAVE, None)]),
    ];
    let live_windows = vec![live(131970, BRAVE, "再生 | U-NEXT - Brave")];
    let mut bindings = HashMap::from([(a, 131970), (b, 131970)]);

    let report = check_and_repair(&PlainMatching {}, &worksets, &live_windows, &mut bindings);

    assert_eq!(report.dropped_bindings(), 2);
    assert!(bindings.is_empty());
    assert!(
        report
            .anomalies
            .iter()
            .any(|x| matches!(x, Anomaly::UnjustifiedSharing { hwnd: 131970, .. }))
    );
}

#[test]
fn justified_sharing_of_one_window_is_not_an_anomaly() {
    let (a, b) = (fresh_id(), fresh_id());
    let worksets = vec![
        workset("A", vec![managed(a, CODE, Some("repodeck"))]),
        workset("B", vec![managed(b, CODE, Some("repodeck"))]),
    ];
    let live_windows = vec![live(42, CODE, "main.rs - repodeck")];
    let mut bindings = HashMap::from([(a, 42), (b, 42)]);

    let report = check_and_repair(&PlainMatching {}, &worksets, &live_windows, &mut bindings);

    assert_eq!(report.dropped_bindings(), 0);
    assert_eq!(bindings.len(), 2);
}

#[test]
fn a_lone_holder_without_evidence_is_left_alone() {
    let entry = fresh_id();
    let worksets = vec![workset("動画", vec![managed(entry, BRAVE, None)])];
    let live_windows = vec![live(131970, BRAVE, "再生 | U-NEXT - Brave")];
    let mut bindings = HashMap::from([(entry, 131970)]);

    let report = check_and_repair(&PlainMatching {}, &worksets, &live_windows, &mut bindings);

    assert_eq!(report.dropped_bindings(), 0);
    assert_eq!(bindings.get(&entry), Some(&131970));
}

#[test]
fn a_binding_whose_window_is_gone_is_kept_as_the_closed_signal() {
    let entry = fresh_id();
    let worksets = vec![workset(
        "repodeck",
        vec![managed(entry, CODE, Some("repodeck"))],
    )];
    let mut bindings = HashMap::from([(entry, 999)]);

    let report = check_and_repair(&PlainMatching {}, &worksets, &[], &mut bindings);

    assert_eq!(report.dropped_bindings(), 0);
    assert_eq!(bindings.get(&entry), Some(&999));
}

#[test]
fn the_detector_never_mutates_the_bindings() {
    let entry = fresh_id();
    let worksets = vec![workset(
        "repodeck",
        vec![managed(entry, CODE, Some("repodeck"))],
    )];
    let live_windows = vec![live(67630, CODE, "02_求解・高速化 (ワークスペース)")];
    let bindings = HashMap::from([(entry, 67630)]);

    let anomalies = detect(&PlainMatching {}, &worksets, &live_windows, &bindings);

    assert_eq!(anomalies.len(), 1);
    assert_eq!(bindings.get(&entry), Some(&67630), "検出器は書き換えない");
}

#[test]
fn the_repairer_only_touches_what_the_detector_reported() {
    let (bad, good) = (fresh_id(), fresh_id());
    let mut bindings = HashMap::from([(bad, 1), (good, 2)]);

    let outcome = repair(
        &[Anomaly::ContradictedBinding {
            entry: bad,
            workset: "repodeck".to_string(),
            hwnd: 1,
            expected: "repodeck".to_string(),
            actual: "別のフォルダ".to_string(),
        }],
        &mut bindings,
    );

    assert_eq!(outcome.dropped_bindings, 1);
    assert_eq!(outcome.pruned_stale, 0);
    assert_eq!(bindings.get(&good), Some(&2), "挙がっていない側は残る");
    assert!(!bindings.contains_key(&bad));
}

#[test]
fn an_unrepairable_only_report_leaves_the_bindings_untouched() {
    let (a, b) = (fresh_id(), fresh_id());
    let worksets = vec![
        workset("動画", vec![managed(a, BRAVE, None)]),
        workset("repodeck", vec![managed(b, BRAVE, None)]),
    ];
    let live_windows = vec![live(1, BRAVE, "A - Brave"), live(2, BRAVE, "B - Brave")];
    let mut bindings = HashMap::from([(a, 1), (b, 2)]);

    let report = check_and_repair(&PlainMatching {}, &worksets, &live_windows, &mut bindings);

    assert!(report.detected_anything(), "区別不能な登録は報告される");
    assert!(!report.repair.touched_anything());
    assert_eq!(bindings.len(), 2);
}

#[test]
fn bindings_of_deleted_registrations_are_pruned() {
    let mut bindings = HashMap::from([(fresh_id(), 1), (fresh_id(), 2)]);

    let report = check_and_repair(&PlainMatching {}, &[], &[], &mut bindings);

    assert_eq!(report.pruned_stale(), 2);
    assert!(bindings.is_empty());
}

#[test]
fn indistinguishable_registrations_are_reported_but_not_repaired() {
    let (a, b) = (fresh_id(), fresh_id());
    let worksets = vec![
        workset("動画", vec![managed(a, BRAVE, None)]),
        workset("repodeck", vec![managed(b, BRAVE, None)]),
    ];

    let found = indistinguishable(&worksets);

    assert_eq!(found.len(), 1);
    let Anomaly::IndistinguishableRegistrations { entries, .. } = &found[0] else {
        panic!(
            "expected IndistinguishableRegistrations, got {:?}",
            found[0]
        );
    };
    assert_eq!(entries.len(), 2);
    assert!(!found[0].is_repairable());
}

#[test]
fn a_registration_with_a_needle_is_never_reported_as_indistinguishable() {
    let (a, b) = (fresh_id(), fresh_id());
    let worksets = vec![
        workset("A", vec![managed(a, CODE, Some("repodeck"))]),
        workset("B", vec![managed(b, CODE, Some("sourcecast"))]),
    ];

    assert!(indistinguishable(&worksets).is_empty());
}
