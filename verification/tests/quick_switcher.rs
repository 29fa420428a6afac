//! Listing and reordering sets.

use repodeck::application::quick_switcher_service::{
    move_workset, sorted_and_filtered, MoveDirection,
};
use repodeck::domain::config::SortMode;
use repodeck::domain::workset::{ParkingPolicy, RepositoryKind, Workset};
use repodeck::ids::Uuid;

fn fresh_id() -> Uuid {
    uuid::Uuid::new_v4().as_u128()
}

fn workset(name: &str, repository_path: &str, sort_order: i32) -> Workset {
    Workset {
        id: fresh_id(),
        name: name.to_string(),
        repository_path: repository_path.into(),
        repository_kind: RepositoryKind::Git,
        color: "#000000".to_string(),
        sort_order,
        direct_hotkey: None,
        parking_policy: ParkingPolicy::Auto,
        fullscreen_when_parked: false,
        windows: Vec::new(),
        created_at: "2026-07-20T00:00:00Z".to_string(),
        updated_at: "2026-07-20T00:00:00Z".to_string(),
    }
}

#[test]
fn manual_order_respects_sort_order() {
    let b = workset("b-set", "C:\\repo-b", 1);
    let a = workset("a-set", "C:\\repo-a", 0);
    let worksets = vec![b.clone(), a.clone()];

    let result = sorted_and_filtered(&worksets, SortMode::Manual, "");

    assert_eq!(
        result.iter().map(|w| &w.name).collect::<Vec<_>>(),
        vec![&a.name, &b.name]
    );
}

#[test]
fn name_order_is_case_insensitive() {
    let upper = workset("Zeta", "C:\\repo-z", 0);
    let lower = workset("alpha", "C:\\repo-a", 1);
    let worksets = vec![upper.clone(), lower.clone()];

    let result = sorted_and_filtered(&worksets, SortMode::Name, "");

    assert_eq!(
        result.iter().map(|w| &w.name).collect::<Vec<_>>(),
        vec![&lower.name, &upper.name]
    );
}

#[test]
fn recent_is_aliased_to_manual() {
    let b = workset("b-set", "C:\\repo-b", 1);
    let a = workset("a-set", "C:\\repo-a", 0);
    let worksets = vec![b.clone(), a.clone()];

    let manual = sorted_and_filtered(&worksets, SortMode::Manual, "");
    let recent = sorted_and_filtered(&worksets, SortMode::Recent, "");

    assert_eq!(
        manual.iter().map(|w| w.id).collect::<Vec<_>>(),
        recent.iter().map(|w| w.id).collect::<Vec<_>>()
    );
}

#[test]
fn filter_matches_name_substring_case_insensitively() {
    let repodeck = workset("repodeck", "C:\\code\\repodeck", 0);
    let other = workset("other-project", "C:\\code\\other", 1);
    let worksets = vec![repodeck.clone(), other.clone()];

    let result = sorted_and_filtered(&worksets, SortMode::Manual, "REPO");

    assert_eq!(result.len(), 1);
    assert_eq!(result[0].id, repodeck.id);
}

#[test]
fn filter_matches_repository_path_substring() {
    let repodeck = workset("main", "C:\\code\\portfolio\\repodeck", 0);
    let other = workset("side", "C:\\code\\side-project", 1);
    let worksets = vec![repodeck.clone(), other.clone()];

    let result = sorted_and_filtered(&worksets, SortMode::Manual, "portfolio");

    assert_eq!(result.len(), 1);
    assert_eq!(result[0].id, repodeck.id);
}

#[test]
fn empty_or_whitespace_filter_returns_everything() {
    let worksets = vec![workset("a", "C:\\a", 0), workset("b", "C:\\b", 1)];

    assert_eq!(
        sorted_and_filtered(&worksets, SortMode::Manual, "").len(),
        2
    );
    assert_eq!(
        sorted_and_filtered(&worksets, SortMode::Manual, "   ").len(),
        2
    );
}

fn manual_names(worksets: &[Workset]) -> Vec<String> {
    sorted_and_filtered(worksets, SortMode::Manual, "")
        .iter()
        .map(|w| w.name.clone())
        .collect()
}

#[test]
fn move_down_then_up_returns_to_the_original_order() {
    let mut worksets = vec![
        workset("a", "C:\\a", 0),
        workset("b", "C:\\b", 1),
        workset("c", "C:\\c", 2),
    ];
    let a_id = worksets[0].id;
    assert_eq!(manual_names(&worksets), ["a", "b", "c"]);

    assert!(move_workset(&mut worksets, a_id, MoveDirection::Down));
    assert_eq!(manual_names(&worksets), ["b", "a", "c"]);

    assert!(move_workset(&mut worksets, a_id, MoveDirection::Up));
    assert_eq!(manual_names(&worksets), ["a", "b", "c"]);
}

#[test]
fn moving_up_and_back_down_restores_the_order() {
    let mut worksets = vec![
        workset("a", "C:\\a", 5),
        workset("b", "C:\\b", 5),
        workset("c", "C:\\c", -1),
    ];
    let b_id = worksets[1].id;
    assert_eq!(manual_names(&worksets), ["c", "a", "b"]);
    assert!(move_workset(&mut worksets, b_id, MoveDirection::Up));
    assert_eq!(manual_names(&worksets), ["c", "b", "a"]);
    assert!(move_workset(&mut worksets, b_id, MoveDirection::Down));
    assert_eq!(manual_names(&worksets), ["c", "a", "b"]);
}

#[test]
fn moving_the_top_up_or_the_bottom_down_is_a_no_op() {
    let mut worksets = vec![workset("a", "C:\\a", 0), workset("b", "C:\\b", 1)];
    let a_id = worksets[0].id;
    let b_id = worksets[1].id;

    assert!(!move_workset(&mut worksets, a_id, MoveDirection::Up));
    assert!(!move_workset(&mut worksets, b_id, MoveDirection::Down));
    assert_eq!(manual_names(&worksets), ["a", "b"]);
}

#[test]
fn move_reassigns_sequential_sort_order_even_with_ties() {
    let mut worksets = vec![
        workset("a", "C:\\a", 2),
        workset("b", "C:\\b", 2),
        workset("c", "C:\\c", 2),
    ];
    let c_id = worksets[2].id;
    assert!(move_workset(&mut worksets, c_id, MoveDirection::Up));
    assert_eq!(manual_names(&worksets), ["a", "c", "b"]);
    let mut orders: Vec<i32> = worksets.iter().map(|w| w.sort_order).collect();
    orders.sort();
    assert_eq!(orders, [0, 1, 2], "sort_order must be a 0..n permutation");
}
