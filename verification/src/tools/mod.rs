//! The helper programs: the hook that agents call, the soak test, and the window watcher.

pub mod hook;
pub mod simtest;
pub mod winstate;
