//! Decisions of a window switcher that keeps one set of windows per repository.

pub mod application;
pub mod clock;
pub mod counting;
pub mod diagnostics;
pub mod domain;
pub mod ids;
pub mod keyed;
pub mod maps;
pub mod order;
pub mod path_order;
pub mod text;
pub mod tools;
pub mod windowing;
pub mod winpath;
