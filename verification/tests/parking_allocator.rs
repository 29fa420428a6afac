//! Dealing parking cells out to sets.

use std::collections::{HashMap, HashSet};

use repodeck::application::layout_service::auto_split_cells;
use repodeck::application::parking_allocator::{
    allocate_parking, AllocationInput, ParkAssignment, ParkingSlotId,
};
use repodeck::domain::monitor::{AutoSplit, MonitorInfo, SavedMonitor};
use repodeck::domain::placement::PixelRect;
use repodeck::domain::workset::{FixedParkingSlot, ParkingPolicy, RepositoryKind, Workset};
use repodeck::ids::Uuid;

fn fresh_id() -> Uuid {
    uuid::Uuid::new_v4().as_u128()
}

fn monitor(device_name: &str, x: i32, work_width: i32) -> MonitorInfo {
    MonitorInfo {
        handle: 0,
        device_name: device_name.to_string(),
        bounds_px: PixelRect::new(x, 0, work_width, 1080),
        work_area_px: PixelRect::new(x, 0, work_width, 1080),
        dpi_x: 96,
        dpi_y: 96,
        is_primary: x == 0,
    }
}

fn saved_monitor(stable_id: &str, split: AutoSplit) -> SavedMonitor {
    SavedMonitor {
        stable_id: stable_id.to_string(),
        device_name: stable_id.to_string(),
        device_path: None,
        friendly_name: None,
        bounds_px: PixelRect::new(0, 0, 1920, 1080),
        work_area_px: PixelRect::new(0, 0, 1920, 1080),
        dpi_x: 96,
        dpi_y: 96,
        auto_split: Some(split),
        excluded: false,
    }
}

fn auto_workset(sort_order: i32) -> Workset {
    Workset {
        id: fresh_id(),
        name: format!("workset-{sort_order}"),
        repository_path: "C:\\repo".into(),
        repository_kind: RepositoryKind::Git,
        color: "#000000".to_string(),
        sort_order,
        direct_hotkey: None,
        parking_policy: ParkingPolicy::Auto,
        fullscreen_when_parked: false,
        windows: Vec::new(),
        created_at: "2026-07-20T00:00:00Z".to_string(),
        updated_at: "2026-07-20T00:00:00Z".to_string(),
    }
}

fn fixed_workset(sort_order: i32, slot_id: Uuid) -> Workset {
    let mut w = auto_workset(sort_order);
    w.parking_policy = ParkingPolicy::Fixed { slot_id };
    w
}

fn all_ids(worksets: &[Workset]) -> HashSet<Uuid> {
    worksets.iter().map(|w| w.id).collect()
}

#[test]
fn two_monitors_no_parking_room_minimizes_overflow() {
    let live = vec![monitor("MAIN", 0, 1920), monitor("SIDE", 1920, 1920)];
    let saved = vec![saved_monitor("SIDE", AutoSplit::One)];
    let a = auto_workset(0);
    let b = auto_workset(1);
    let worksets = vec![a.clone(), b.clone()];

    let result = allocate_parking(&AllocationInput {
        worksets: &worksets,
        current_workset_id: None,
        fixed_slots: &[],
        main_monitor_ids: &["MAIN".to_string()],
        live_monitors: &live,
        saved_monitors: &saved,
        sub_screen_monitor_ids: &[],
        previous_assignments: &HashMap::new(),
        worksets_with_windows: &all_ids(&worksets),
    });

    assert!(matches!(
        result.assignments[&a.id],
        ParkAssignment::AutoSlot { .. }
    ));
    assert_eq!(result.assignments[&b.id], ParkAssignment::Minimized);
}

#[test]
fn sub_screen_monitors_are_excluded_from_the_auto_pool() {
    let live = vec![monitor("MAIN", 0, 1920), monitor("SUB", 1920, 1920)];
    let saved = vec![saved_monitor("SUB", AutoSplit::One)];
    let a = auto_workset(0);
    let worksets = vec![a.clone()];

    let result = allocate_parking(&AllocationInput {
        worksets: &worksets,
        current_workset_id: None,
        fixed_slots: &[],
        main_monitor_ids: &["MAIN".to_string()],
        live_monitors: &live,
        saved_monitors: &saved,
        sub_screen_monitor_ids: &["SUB".to_string()],
        previous_assignments: &HashMap::new(),
        worksets_with_windows: &all_ids(&worksets),
    });

    assert_eq!(result.assignments[&a.id], ParkAssignment::Minimized);
}

#[test]
fn few_worksets_are_not_packed_into_quarters_while_a_screen_is_empty() {
    let live = vec![
        monitor("MAIN", 0, 1920),
        monitor("SIDE1", 1920, 1920),
        monitor("SIDE2", 3840, 1920),
    ];
    let saved = vec![
        saved_monitor("SIDE1", AutoSplit::FourGrid),
        saved_monitor("SIDE2", AutoSplit::FourGrid),
    ];
    let a = auto_workset(0);
    let b = auto_workset(1);
    let worksets = vec![a.clone(), b.clone()];

    let result = allocate_parking(&AllocationInput {
        worksets: &worksets,
        current_workset_id: None,
        fixed_slots: &[],
        main_monitor_ids: &["MAIN".to_string()],
        live_monitors: &live,
        saved_monitors: &saved,
        sub_screen_monitor_ids: &[],
        previous_assignments: &HashMap::new(),
        worksets_with_windows: &all_ids(&worksets),
    });

    let placed = |w: &Workset| match &result.assignments[&w.id] {
        ParkAssignment::AutoSlot { rect, slot } => (*rect, slot.monitor_id.clone()),
        other => panic!("expected AutoSlot, got {other:?}"),
    };
    let (rect_a, mon_a) = placed(&a);
    let (rect_b, mon_b) = placed(&b);
    assert_ne!(mon_a, mon_b, "the two worksets spread onto different monitors");
    assert_eq!((rect_a.width, rect_a.height), (1920, 1080));
    assert_eq!((rect_b.width, rect_b.height), (1920, 1080));
}

#[test]
fn a_set_with_no_live_windows_does_not_reserve_a_cell() {
    let live = vec![
        monitor("MAIN", 0, 1920),
        monitor("SIDE1", 1920, 1920),
        monitor("SIDE2", 3840, 1920),
    ];
    let a = auto_workset(0);
    let b = auto_workset(1);
    let worksets = vec![a.clone(), b.clone()];
    let only_a: HashSet<Uuid> = [a.id].into_iter().collect();

    let result = allocate_parking(&AllocationInput {
        worksets: &worksets,
        current_workset_id: None,
        fixed_slots: &[],
        main_monitor_ids: &["MAIN".to_string()],
        live_monitors: &live,
        saved_monitors: &[],
        sub_screen_monitor_ids: &[],
        previous_assignments: &HashMap::new(),
        worksets_with_windows: &only_a,
    });

    match &result.assignments[&a.id] {
        ParkAssignment::AutoSlot { rect, .. } => {
            assert_eq!((rect.width, rect.height), (1920, 1080), "live set fills a whole monitor");
        }
        other => panic!("expected AutoSlot whole monitor, got {other:?}"),
    }
    assert!(
        !result.assignments.contains_key(&b.id),
        "a set with no live windows must not be assigned a cell"
    );
}

#[test]
fn four_monitors_multiple_auto_slots_are_distinct_and_stable() {
    let live = vec![
        monitor("MAIN", 0, 1920),
        monitor("SIDE1", 1920, 1920),
        monitor("SIDE2", 3840, 1920),
        monitor("SIDE3", 5760, 1920),
    ];
    let saved = vec![
        saved_monitor("SIDE1", AutoSplit::TwoColumns),
        saved_monitor("SIDE2", AutoSplit::FourGrid),
        saved_monitor("SIDE3", AutoSplit::One),
    ];
    let worksets: Vec<Workset> = (0..5).map(auto_workset).collect();
    let main_monitor_ids = vec!["MAIN".to_string()];

    let first = allocate_parking(&AllocationInput {
        worksets: &worksets,
        current_workset_id: None,
        fixed_slots: &[],
        main_monitor_ids: &main_monitor_ids,
        live_monitors: &live,
        saved_monitors: &saved,
        sub_screen_monitor_ids: &[],
        previous_assignments: &HashMap::new(),
        worksets_with_windows: &all_ids(&worksets),
    });

    let mut assigned_slots: Vec<&ParkingSlotId> = Vec::new();
    for workset in &worksets {
        if let ParkAssignment::AutoSlot { slot, .. } = &first.assignments[&workset.id] {
            assigned_slots.push(slot);
        }
    }
    let distinct: HashSet<&ParkingSlotId> = assigned_slots.iter().copied().collect();
    assert_eq!(
        distinct.len(),
        assigned_slots.len(),
        "no two worksets share a cell"
    );
    assert_eq!(
        assigned_slots.len(),
        5,
        "1+2+4+... covers all 5 worksets across 2+4+1=7 cells"
    );
    let second = allocate_parking(&AllocationInput {
        worksets: &worksets,
        current_workset_id: None,
        fixed_slots: &[],
        main_monitor_ids: &main_monitor_ids,
        live_monitors: &live,
        saved_monitors: &saved,
        sub_screen_monitor_ids: &[],
        previous_assignments: &first.new_auto_slot_assignments,
        worksets_with_windows: &all_ids(&worksets),
    });
    assert_eq!(second.assignments, first.assignments);
}

#[test]
fn eight_monitors_fixed_and_auto_mixed_never_collide() {
    let mut live: Vec<MonitorInfo> = vec![monitor("MAIN", 0, 1920)];
    for i in 1..8 {
        live.push(monitor(&format!("SIDE{i}"), 1920 * i, 1920));
    }
    let saved: Vec<SavedMonitor> = (1..8)
        .map(|i| saved_monitor(&format!("SIDE{i}"), AutoSplit::TwoColumns))
        .collect();

    let fixed_slot_id = fresh_id();
    let fixed_slots = vec![FixedParkingSlot {
        id: fixed_slot_id,
        monitor_id: "SIDE1".to_string(),
        grid: AutoSplit::TwoColumns,
        cell_index: 0,
        assigned_workset_id: 0,
    }];

    let fixed = fixed_workset(0, fixed_slot_id);
    let autos: Vec<Workset> = (1..6).map(auto_workset).collect();
    let mut worksets = vec![fixed.clone()];
    worksets.extend(autos.iter().cloned());
    let main_monitor_ids = vec!["MAIN".to_string()];

    let result = allocate_parking(&AllocationInput {
        worksets: &worksets,
        current_workset_id: None,
        fixed_slots: &fixed_slots,
        main_monitor_ids: &main_monitor_ids,
        live_monitors: &live,
        saved_monitors: &saved,
        sub_screen_monitor_ids: &[],
        previous_assignments: &HashMap::new(),
        worksets_with_windows: &all_ids(&worksets),
    });

    let fixed_target = ParkingSlotId {
        monitor_id: "SIDE1".to_string(),
        cell_index: 0,
    };
    assert_eq!(
        result.assignments[&fixed.id],
        ParkAssignment::FixedSlot {
            slot: fixed_target.clone(),
            rect: auto_split_cells(
                live.iter()
                    .find(|m| m.device_name == "SIDE1")
                    .unwrap()
                    .work_area_px,
                AutoSplit::TwoColumns
            )[0]
        }
    );
    for workset in &autos {
        if let ParkAssignment::AutoSlot { slot, .. } = &result.assignments[&workset.id] {
            assert_ne!(
                slot, &fixed_target,
                "auto slot never collides with the fixed cell"
            );
        }
    }
}

#[test]
fn fixed_slot_monitor_missing_is_minimized() {
    let live = vec![monitor("MAIN", 0, 1920)];
    let fixed_slot_id = fresh_id();
    let fixed_slots = vec![FixedParkingSlot {
        id: fixed_slot_id,
        monitor_id: "GONE".to_string(),
        grid: AutoSplit::One,
        cell_index: 0,
        assigned_workset_id: 0,
    }];
    let workset = fixed_workset(0, fixed_slot_id);
    let worksets = vec![workset.clone()];

    let result = allocate_parking(&AllocationInput {
        worksets: &worksets,
        current_workset_id: None,
        fixed_slots: &fixed_slots,
        main_monitor_ids: &["MAIN".to_string()],
        live_monitors: &live,
        saved_monitors: &[],
        sub_screen_monitor_ids: &[],
        previous_assignments: &HashMap::new(),
        worksets_with_windows: &all_ids(&worksets),
    });

    assert_eq!(result.assignments[&workset.id], ParkAssignment::Minimized);
}

#[test]
fn stable_previous_assignment_is_kept_over_a_different_first_fit_choice() {
    let live = vec![monitor("MAIN", 0, 1920), monitor("SIDE", 1920, 1920)];
    let saved = vec![saved_monitor("SIDE", AutoSplit::TwoColumns)];
    let a = auto_workset(0);
    let b = auto_workset(1);
    let worksets = vec![a.clone(), b.clone()];
    let main_monitor_ids = vec!["MAIN".to_string()];
    let mut previous = HashMap::new();
    previous.insert(
        b.id,
        ParkingSlotId {
            monitor_id: "SIDE".to_string(),
            cell_index: 0,
        },
    );

    let result = allocate_parking(&AllocationInput {
        worksets: &worksets,
        current_workset_id: None,
        fixed_slots: &[],
        main_monitor_ids: &main_monitor_ids,
        live_monitors: &live,
        saved_monitors: &saved,
        sub_screen_monitor_ids: &[],
        previous_assignments: &previous,
        worksets_with_windows: &all_ids(&worksets),
    });

    let side_cells = auto_split_cells(
        live.iter()
            .find(|m| m.device_name == "SIDE")
            .unwrap()
            .work_area_px,
        AutoSplit::TwoColumns,
    );
    assert_eq!(
        result.assignments[&b.id],
        ParkAssignment::AutoSlot {
            slot: ParkingSlotId {
                monitor_id: "SIDE".to_string(),
                cell_index: 0
            },
            rect: side_cells[0]
        }
    );
    assert_eq!(
        result.assignments[&a.id],
        ParkAssignment::AutoSlot {
            slot: ParkingSlotId {
                monitor_id: "SIDE".to_string(),
                cell_index: 1
            },
            rect: side_cells[1]
        }
    );
}

fn side(cell_index: usize) -> ParkingSlotId {
    ParkingSlotId { monitor_id: "SIDE".to_string(), cell_index }
}

#[test]
fn a_fixed_slot_is_kept_free_while_its_set_is_on_the_main_screen() {
    let live = vec![monitor("MAIN", 0, 1920), monitor("SIDE", 1920, 1920)];
    let slot_id = fresh_id();
    let fixed_slots = vec![FixedParkingSlot {
        id: slot_id,
        monitor_id: "SIDE".to_string(),
        grid: AutoSplit::One,
        cell_index: 0,
        assigned_workset_id: 0,
    }];
    let f = fixed_workset(0, slot_id);
    let a = auto_workset(1);
    let (f_id, a_id) = (f.id, a.id);
    let owned = vec![f, a.clone()];
    let unowned = vec![a];
    for (worksets, current) in [(&owned, Some(f_id)), (&unowned, None)] {
        let result = allocate_parking(&AllocationInput {
            worksets,
            current_workset_id: current,
            fixed_slots: &fixed_slots,
            main_monitor_ids: &["MAIN".to_string()],
            live_monitors: &live,
            saved_monitors: &[],
            sub_screen_monitor_ids: &[],
            previous_assignments: &HashMap::new(),
            worksets_with_windows: &[a_id].into_iter().collect(),
        });
        assert_eq!(result.assignments[&a_id], ParkAssignment::Minimized);
        assert!(result.new_auto_slot_assignments.is_empty());
    }
}

#[test]
fn sets_keep_their_cells_in_whatever_order_they_come() {
    let live = vec![monitor("MAIN", 0, 1920), monitor("SIDE", 1920, 1920)];
    let saved = vec![saved_monitor("SIDE", AutoSplit::TwoColumns)];
    let a = auto_workset(0);
    let b = auto_workset(1);
    let worksets = vec![a.clone(), b.clone()];
    let previous: HashMap<Uuid, ParkingSlotId> =
        [(a.id, side(1)), (b.id, side(0))].into_iter().collect();
    let result = allocate_parking(&AllocationInput {
        worksets: &worksets,
        current_workset_id: None,
        fixed_slots: &[],
        main_monitor_ids: &["MAIN".to_string()],
        live_monitors: &live,
        saved_monitors: &saved,
        sub_screen_monitor_ids: &[],
        previous_assignments: &previous,
        worksets_with_windows: &all_ids(&worksets),
    });
    assert_eq!(
        result.assignments[&a.id],
        ParkAssignment::AutoSlot { slot: side(1), rect: PixelRect::new(2880, 0, 960, 1080) }
    );
    assert_eq!(
        result.assignments[&b.id],
        ParkAssignment::AutoSlot { slot: side(0), rect: PixelRect::new(1920, 0, 960, 1080) }
    );
    assert_eq!(result.new_auto_slot_assignments, previous);
}

#[test]
fn cells_that_nobody_keeps_go_out_in_manual_order() {
    let live = vec![monitor("MAIN", 0, 1920), monitor("SIDE", 1920, 1920)];
    let saved = vec![saved_monitor("SIDE", AutoSplit::FourGrid)];
    let worksets: Vec<Workset> = (0..4).map(auto_workset).collect();
    let ids: Vec<Uuid> = worksets.iter().map(|w| w.id).collect();
    // The second and the third held the same cell, the last one a cell that is gone.
    let previous: HashMap<Uuid, ParkingSlotId> =
        [(ids[1], side(2)), (ids[2], side(2)), (ids[3], side(5))].into_iter().collect();
    let result = allocate_parking(&AllocationInput {
        worksets: &worksets,
        current_workset_id: None,
        fixed_slots: &[],
        main_monitor_ids: &["MAIN".to_string()],
        live_monitors: &live,
        saved_monitors: &saved,
        sub_screen_monitor_ids: &[],
        previous_assignments: &previous,
        worksets_with_windows: &all_ids(&worksets),
    });
    let slots = &result.new_auto_slot_assignments;
    assert_eq!(
        (&slots[&ids[0]], &slots[&ids[1]], &slots[&ids[2]], &slots[&ids[3]]),
        (&side(0), &side(2), &side(1), &side(3))
    );
}

#[test]
fn parking_slot_id_encode_decode_round_trips() {
    let id = ParkingSlotId {
        monitor_id: r"\\.\DISPLAY1".to_string(),
        cell_index: 3,
    };
    let encoded = id.encode();
    assert_eq!(ParkingSlotId::decode(&encoded), Some(id));
}
