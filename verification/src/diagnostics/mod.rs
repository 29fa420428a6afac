//! Keeping the log files in bounds.

pub mod logging;
