//! Monitors as they are saved and as they are connected, and how a screen is split.

use vstd::prelude::*;

use crate::domain::placement::PixelRect;

verus! {

/// Into how many cells a screen is split.
#[derive(Clone, Copy, Debug, PartialEq, Eq, Structural)]
pub enum AutoSplit {
    One,
    TwoColumns,
    FourGrid,
}

impl AutoSplit {
    pub open spec fn cells(self) -> nat {
        match self {
            AutoSplit::One => 1,
            AutoSplit::TwoColumns => 2,
            AutoSplit::FourGrid => 4,
        }
    }

    pub fn cell_count(self) -> (r: usize)
        ensures
            r == self.cells(),
    {
        match self {
            AutoSplit::One => 1,
            AutoSplit::TwoColumns => 2,
            AutoSplit::FourGrid => 4,
        }
    }
}

/// A monitor as the user has saved it.
#[derive(Clone, Debug)]
pub struct SavedMonitor {
    pub stable_id: String,
    pub device_name: String,
    pub device_path: Option<String>,
    pub friendly_name: Option<String>,
    pub bounds_px: PixelRect,
    pub work_area_px: PixelRect,
    pub dpi_x: u32,
    pub dpi_y: u32,
    /// `None` leaves the split to the size of the screen.
    pub auto_split: Option<AutoSplit>,
    /// Nothing is ever parked on an excluded monitor.
    pub excluded: bool,
}

/// A monitor that is connected now.
#[derive(Debug)]
pub struct MonitorInfo {
    pub handle: isize,
    pub device_name: String,
    pub bounds_px: PixelRect,
    pub work_area_px: PixelRect,
    pub dpi_x: u32,
    pub dpi_y: u32,
    pub is_primary: bool,
}

impl Clone for MonitorInfo {
    fn clone(&self) -> (r: Self)
        ensures
            r == *self,
    {
        MonitorInfo {
            handle: self.handle,
            device_name: self.device_name.clone(),
            bounds_px: self.bounds_px,
            work_area_px: self.work_area_px,
            dpi_x: self.dpi_x,
            dpi_y: self.dpi_y,
            is_primary: self.is_primary,
        }
    }
}

} // verus!
