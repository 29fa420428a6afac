//! Windows as the desktop lists them, and finding a registered window among them.

pub mod enumerate;
pub mod matcher;
