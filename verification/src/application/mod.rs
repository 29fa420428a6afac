//! The decisions themselves, one module per concern.

pub mod agent_status_service;
pub mod colors;
pub mod crash_recovery;
pub mod dealt;
pub mod display_recovery_service;
pub mod effects;
pub mod emptied;
pub mod empty_main;
pub mod evicted;
pub mod gh_status_service;
pub mod git_status_service;
pub mod in_sight;
pub mod integrity_service;
pub mod journaled;
pub mod launch_service;
pub mod layout_service;
pub mod layout_studio;
pub mod main_placement;
pub mod monitor_identity;
pub mod monitor_resolution;
pub mod monitor_watch_service;
pub mod parking_allocator;
pub mod parking_cells;
pub mod parking_placement;
pub mod parking_seats;
pub mod popup_placement;
pub mod quick_switcher_service;
pub mod recovery_service;
pub mod settings_view;
pub mod startup;
pub mod sub_screens;
pub mod switch_coordinator;
pub mod switched;
pub mod switcher_view;
pub mod taken_back;
pub mod window_ops;
pub mod workset_manager;
pub mod workset_service;
