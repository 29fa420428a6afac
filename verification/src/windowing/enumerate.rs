//! Live top-level windows.

use vstd::prelude::*;

use crate::domain::placement::PixelRect;

verus! {

/// A window that is on the desktop now.
#[derive(Debug)]
pub struct TopLevelWindow {
    pub hwnd: isize,
    pub process_id: u32,
    pub executable_path: Option<String>,
    pub window_class: String,
    pub title: String,
    pub rect_px: PixelRect,
}

/// A copy of an optional string.
pub fn copy_text(s: &Option<String>) -> (r: Option<String>)
    ensures
        r == *s,
{
    match s {
        Some(t) => Some(t.clone()),
        None => None,
    }
}

impl Clone for TopLevelWindow {
    fn clone(&self) -> (r: Self)
        ensures
            r == *self,
    {
        TopLevelWindow {
            hwnd: self.hwnd,
            process_id: self.process_id,
            executable_path: copy_text(&self.executable_path),
            window_class: self.window_class.clone(),
            title: self.title.clone(),
            rect_px: self.rect_px,
        }
    }
}

/// The first live window with the handle `hwnd`.
pub open spec fn live_at(windows: Seq<TopLevelWindow>, hwnd: isize) -> Option<TopLevelWindow>
    decreases windows.len(),
{
    if windows.len() == 0 {
        None
    } else if windows[0].hwnd == hwnd {
        Some(windows[0])
    } else {
        live_at(windows.skip(1), hwnd)
    }
}

/// What is found under a handle has that handle.
pub proof fn lemma_live_at(windows: Seq<TopLevelWindow>, hwnd: isize)
    ensures
        live_at(windows, hwnd) matches Some(w) ==> w.hwnd == hwnd && windows.contains(w),
    decreases windows.len(),
{
    if windows.len() > 0 && windows[0].hwnd != hwnd {
        lemma_live_at(windows.skip(1), hwnd);
        if let Some(w) = live_at(windows, hwnd) {
            let k = choose|k: int| 0 <= k < windows.skip(1).len() && windows.skip(1)[k] == w;
            assert(windows[k + 1] == w);
        }
    } else if windows.len() > 0 {
        assert(windows.contains(windows[0]));
    }
}

/// Looks up the first live window with the handle `hwnd`.
pub fn find_live(windows: &[TopLevelWindow], hwnd: isize) -> (r: Option<&TopLevelWindow>)
    ensures
        match r {
            Some(w) => live_at(windows@, hwnd) == Some(*w) && w.hwnd == hwnd,
            None => live_at(windows@, hwnd) is None,
        },
{
    let mut i: usize = 0;
    assert(windows@.skip(0) =~= windows@);
    while i < windows.len()
        invariant
            i <= windows@.len(),
            live_at(windows@, hwnd) == live_at(windows@.skip(i as int), hwnd),
        decreases windows@.len() - i,
    {
        if windows[i].hwnd == hwnd {
            return Some(&windows[i]);
        }
        assert(windows@.skip(i as int).skip(1) =~= windows@.skip(i + 1));
        i += 1;
    }
    None
}

/// A live window is found by its handle, as long as no two have the same.
pub proof fn law_window_is_found_by_its_handle(windows: Seq<TopLevelWindow>, k: int)
    requires
        0 <= k < windows.len(),
        forall|a: int, b: int|
            0 <= a < b < windows.len() ==> (#[trigger] windows[a]).hwnd != (
            #[trigger] windows[b]).hwnd,
    ensures
        live_at(windows, windows[k].hwnd) == Some(windows[k]),
    decreases k,
{
    if k > 0 {
        let rest = windows.skip(1);
        assert(forall|j: int| 0 <= j < rest.len() ==> #[trigger] rest[j] == windows[j + 1]);
        assert(windows[0].hwnd != windows[k].hwnd);
        law_window_is_found_by_its_handle(rest, k - 1);
    }
}

} // verus!
