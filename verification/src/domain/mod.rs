//! The data that the switcher keeps and the plain rules on it.

pub mod agent;
pub mod config;
pub mod hotkey;
pub mod monitor;
pub mod placement;
pub mod runtime;
pub mod workset;
