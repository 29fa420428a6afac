//! What is asked of the desktop, and a record of it.

use vstd::prelude::*;

use crate::domain::placement::{PixelRect, SavedShowState};
use crate::text;

verus! {

/// A call into the desktop that failed.
#[derive(Clone, Debug)]
pub struct WindowError {
    pub operation: String,
}

/// A batch of moves that could not be carried out even window by window.
#[derive(Clone, Debug)]
pub enum WindowOpsError {
    PerWindowFailed { hwnd: isize, source: WindowError },
}

impl WindowOpsError {
    pub open spec fn says(self) -> Seq<char> {
        match self {
            WindowOpsError::PerWindowFailed { hwnd, source } => "batch move failed for hwnd "@
                + text::signed_decimal(hwnd as int) + ": "@ + source.operation@,
        }
    }

    pub fn message(&self) -> (r: String)
        ensures
            r@ == self.says(),
    {
        match self {
            WindowOpsError::PerWindowFailed { hwnd, source } => {
                let number = text::signed_decimal_text(*hwnd as i64);
                let mut out = text::joined3("batch move failed for hwnd ", number.as_str(), ": ");
                out.append(source.operation.as_str());
                out
            },
        }
    }
}

/// One call into the desktop, with what came back where that matters.
pub enum WindowCall {
    ShowState { hwnd: isize, found: Option<SavedShowState> },
    NormalRect { hwnd: isize, found: Option<PixelRect> },
    Restore { hwnd: isize },
    Maximize { hwnd: isize },
    Minimize { hwnd: isize },
    SetPlacement { hwnd: isize, rect: PixelRect, maximized: bool, fill: bool },
    FullscreenKeys { hwnd: isize, refocus: Option<isize> },
    ExitFullscreen { hwnd: isize, rect: PixelRect, maximized: bool, fill: bool },
    BatchMove { moves: Seq<(isize, PixelRect)>, done: bool },
    ZOrderAfter { hwnd: isize, after: Option<isize> },
    Foreground { hwnd: isize },
    Alive { hwnd: isize, alive: bool },
}

/// The desktop as the switcher moves windows on it. Nothing is said of what a call does there or
/// finds there.
pub trait WindowOps {
    fn get_show_state(&self, hwnd: isize) -> Result<SavedShowState, WindowError>;

    fn get_normal_rect(&self, hwnd: isize) -> Result<PixelRect, WindowError>;

    fn restore(&self, hwnd: isize);

    fn maximize(&self, hwnd: isize);

    /// Places a window, also where it is maximized elsewhere. With `fill`, `rect` is the area to
    /// be seen filled; without, it is the window's frame.
    fn set_placement(&self, hwnd: isize, rect: PixelRect, maximized: bool, fill: bool);

    fn minimize(&self, hwnd: isize);

    /// Sends a parked browser its own full-screen keys, and hands the focus back to `refocus`.
    fn send_fullscreen_keys(&self, hwnd: isize, refocus: Option<isize>);

    /// Takes a browser out of full screen and places it.
    fn exit_fullscreen(&self, hwnd: isize, restore_rect: PixelRect, maximized: bool, fill: bool);

    /// Moves several windows at once, or one by one where that fails.
    fn batch_move(&self, moves: &[(isize, PixelRect)]) -> Result<(), WindowOpsError>;

    fn set_z_order_after(&self, hwnd: isize, insert_after: Option<isize>);

    fn set_foreground(&self, hwnd: isize);

    fn is_window_alive(&self, hwnd: isize) -> bool;
}

/// What a call that can fail found.
pub open spec fn found_by<T>(r: Result<T, WindowError>) -> Option<T> {
    match r {
        Ok(v) => Some(v),
        Err(_) => None,
    }
}

/// The entry stands for a call that was made on the desktop, and tells what came back of it.
pub open spec fn stands_for_call<W: WindowOps>(desktop: W, call: WindowCall) -> bool {
    match call {
        WindowCall::ShowState { hwnd, found } => exists|r: Result<SavedShowState, WindowError>|
            #[trigger] call_ensures(W::get_show_state, (&desktop, hwnd), r) && found == found_by(r),
        WindowCall::NormalRect { hwnd, found } => exists|r: Result<PixelRect, WindowError>|
            #[trigger] call_ensures(W::get_normal_rect, (&desktop, hwnd), r) && found == found_by(
                r,
            ),
        WindowCall::Restore { hwnd } => call_ensures(W::restore, (&desktop, hwnd), ()),
        WindowCall::Maximize { hwnd } => call_ensures(W::maximize, (&desktop, hwnd), ()),
        WindowCall::Minimize { hwnd } => call_ensures(W::minimize, (&desktop, hwnd), ()),
        WindowCall::SetPlacement { hwnd, rect, maximized, fill } => call_ensures(
            W::set_placement,
            (&desktop, hwnd, rect, maximized, fill),
            (),
        ),
        WindowCall::FullscreenKeys { hwnd, refocus } => call_ensures(
            W::send_fullscreen_keys,
            (&desktop, hwnd, refocus),
            (),
        ),
        WindowCall::ExitFullscreen { hwnd, rect, maximized, fill } => call_ensures(
            W::exit_fullscreen,
            (&desktop, hwnd, rect, maximized, fill),
            (),
        ),
        WindowCall::BatchMove { moves, done } => exists|
            m: &[(isize, PixelRect)],
            r: Result<(), WindowOpsError>,
        | #[trigger]
            call_ensures(W::batch_move, (&desktop, m), r) && m@ == moves && done == (r is Ok),
        WindowCall::ZOrderAfter { hwnd, after } => call_ensures(
            W::set_z_order_after,
            (&desktop, hwnd, after),
            (),
        ),
        WindowCall::Foreground { hwnd } => call_ensures(W::set_foreground, (&desktop, hwnd), ()),
        WindowCall::Alive { hwnd, alive } => call_ensures(
            W::is_window_alive,
            (&desktop, hwnd),
            alive,
        ),
    }
}

/// A desktop together with a record of the calls made on it. Each method makes the call of its
/// name on the desktop, once, and hands back what came of it; the record holds nothing else.
pub struct Recorder<W: WindowOps> {
    ops: W,
    log: Ghost<Seq<WindowCall>>,
}

impl<W: WindowOps> Recorder<W> {
    /// The desktop that the calls are made on.
    pub closed spec fn desktop(&self) -> W {
        self.ops
    }

    /// All calls made so far.
    pub closed spec fn history(&self) -> Seq<WindowCall> {
        self.log@
    }

    /// Nothing is on record that was not called.
    #[verifier::type_invariant]
    closed spec fn only_calls(self) -> bool {
        forall|i: int|
            0 <= i < self.log@.len() ==> stands_for_call(self.ops, #[trigger] self.log@[i])
    }

    pub fn new(ops: W) -> (r: Self)
        ensures
            r.desktop() == ops,
            r.history() == Seq::<WindowCall>::empty(),
    {
        Recorder { ops, log: Ghost(Seq::empty()) }
    }

    /// The desktop itself. Every entry on record stands for a call made on it.
    pub fn ops(&self) -> (r: &W)
        ensures
            *r == self.desktop(),
            forall|i: int|
                0 <= i < self.history().len() ==> stands_for_call(
                    *r,
                    #[trigger] self.history()[i],
                ),
    {
        proof {
            use_type_invariant(self);
        }
        &self.ops
    }

    pub fn get_show_state(&mut self, hwnd: isize) -> (r: Result<SavedShowState, WindowError>)
        ensures
            final(self).desktop() == old(self).desktop(),
            final(self).history() == old(self).history().push(WindowCall::ShowState { hwnd, found: found_by(r) }),
            call_ensures(W::get_show_state, (&old(self).desktop(), hwnd), r),
    {
        proof {
            use_type_invariant(&*self);
        }
        let r = self.ops.get_show_state(hwnd);
        proof {
            self.log@ = self.log@.push(WindowCall::ShowState { hwnd, found: found_by(r) });
        }
        r
    }

    pub fn get_normal_rect(&mut self, hwnd: isize) -> (r: Result<PixelRect, WindowError>)
        ensures
            final(self).desktop() == old(self).desktop(),
            final(self).history() == old(self).history().push(WindowCall::NormalRect { hwnd, found: found_by(r) }),
            call_ensures(W::get_normal_rect, (&old(self).desktop(), hwnd), r),
    {
        proof {
            use_type_invariant(&*self);
        }
        let r = self.ops.get_normal_rect(hwnd);
        proof {
            self.log@ = self.log@.push(WindowCall::NormalRect { hwnd, found: found_by(r) });
        }
        r
    }

    pub fn restore(&mut self, hwnd: isize)
        ensures
            final(self).desktop() == old(self).desktop(),
            final(self).history() == old(self).history().push(WindowCall::Restore { hwnd }),
            call_ensures(W::restore, (&old(self).desktop(), hwnd), ()),
    {
        proof {
            use_type_invariant(&*self);
        }
        self.ops.restore(hwnd);
        proof {
            self.log@ = self.log@.push(WindowCall::Restore { hwnd });
        }
    }

    pub fn maximize(&mut self, hwnd: isize)
        ensures
            final(self).desktop() == old(self).desktop(),
            final(self).history() == old(self).history().push(WindowCall::Maximize { hwnd }),
            call_ensures(W::maximize, (&old(self).desktop(), hwnd), ()),
    {
        proof {
            use_type_invariant(&*self);
        }
        self.ops.maximize(hwnd);
        proof {
            self.log@ = self.log@.push(WindowCall::Maximize { hwnd });
        }
    }

    pub fn set_placement(&mut self, hwnd: isize, rect: PixelRect, maximized: bool, fill: bool)
        ensures
            final(self).desktop() == old(self).desktop(),
            final(self).history() == old(self).history().push(WindowCall::SetPlacement { hwnd, rect, maximized, fill }),
            call_ensures(W::set_placement, (&old(self).desktop(), hwnd, rect, maximized, fill), ()),
    {
        proof {
            use_type_invariant(&*self);
        }
        self.ops.set_placement(hwnd, rect, maximized, fill);
        proof {
            self.log@ = self.log@.push(WindowCall::SetPlacement { hwnd, rect, maximized, fill });
        }
    }

    pub fn minimize(&mut self, hwnd: isize)
        ensures
            final(self).desktop() == old(self).desktop(),
            final(self).history() == old(self).history().push(WindowCall::Minimize { hwnd }),
            call_ensures(W::minimize, (&old(self).desktop(), hwnd), ()),
    {
        proof {
            use_type_invariant(&*self);
        }
        self.ops.minimize(hwnd);
        proof {
            self.log@ = self.log@.push(WindowCall::Minimize { hwnd });
        }
    }

    pub fn send_fullscreen_keys(&mut self, hwnd: isize, refocus: Option<isize>)
        ensures
            final(self).desktop() == old(self).desktop(),
            final(self).history() == old(self).history().push(WindowCall::FullscreenKeys { hwnd, refocus }),
            call_ensures(W::send_fullscreen_keys, (&old(self).desktop(), hwnd, refocus), ()),
    {
        proof {
            use_type_invariant(&*self);
        }
        self.ops.send_fullscreen_keys(hwnd, refocus);
        proof {
            self.log@ = self.log@.push(WindowCall::FullscreenKeys { hwnd, refocus });
        }
    }

    pub fn exit_fullscreen(&mut self, hwnd: isize, rect: PixelRect, maximized: bool, fill: bool)
        ensures
            final(self).desktop() == old(self).desktop(),
            final(self).history() == old(self).history().push(WindowCall::ExitFullscreen { hwnd, rect, maximized, fill }),
            call_ensures(W::exit_fullscreen, (&old(self).desktop(), hwnd, rect, maximized, fill), ()),
    {
        proof {
            use_type_invariant(&*self);
        }
        self.ops.exit_fullscreen(hwnd, rect, maximized, fill);
        proof {
            self.log@ = self.log@.push(WindowCall::ExitFullscreen { hwnd, rect, maximized, fill });
        }
    }

    pub fn batch_move(&mut self, moves: &[(isize, PixelRect)]) -> (r: Result<(), WindowOpsError>)
        ensures
            final(self).desktop() == old(self).desktop(),
            final(self).history() == old(self).history().push(WindowCall::BatchMove { moves: moves@, done: r is Ok }),
            call_ensures(W::batch_move, (&old(self).desktop(), moves), r),
    {
        proof {
            use_type_invariant(&*self);
        }
        let r = self.ops.batch_move(moves);
        proof {
            self.log@ = self.log@.push(WindowCall::BatchMove { moves: moves@, done: r is Ok });
        }
        r
    }

    pub fn set_z_order_after(&mut self, hwnd: isize, after: Option<isize>)
        ensures
            final(self).desktop() == old(self).desktop(),
            final(self).history() == old(self).history().push(WindowCall::ZOrderAfter { hwnd, after }),
            call_ensures(W::set_z_order_after, (&old(self).desktop(), hwnd, after), ()),
    {
        proof {
            use_type_invariant(&*self);
        }
        self.ops.set_z_order_after(hwnd, after);
        proof {
            self.log@ = self.log@.push(WindowCall::ZOrderAfter { hwnd, after });
        }
    }

    pub fn set_foreground(&mut self, hwnd: isize)
        ensures
            final(self).desktop() == old(self).desktop(),
            final(self).history() == old(self).history().push(WindowCall::Foreground { hwnd }),
            call_ensures(W::set_foreground, (&old(self).desktop(), hwnd), ()),
    {
        proof {
            use_type_invariant(&*self);
        }
        self.ops.set_foreground(hwnd);
        proof {
            self.log@ = self.log@.push(WindowCall::Foreground { hwnd });
        }
    }

    pub fn is_window_alive(&mut self, hwnd: isize) -> (r: bool)
        ensures
            final(self).desktop() == old(self).desktop(),
            final(self).history() == old(self).history().push(WindowCall::Alive { hwnd, alive: r }),
            call_ensures(W::is_window_alive, (&old(self).desktop(), hwnd), r),
    {
        proof {
            use_type_invariant(&*self);
        }
        let r = self.ops.is_window_alive(hwnd);
        proof {
            self.log@ = self.log@.push(WindowCall::Alive { hwnd, alive: r });
        }
        r
    }
}

} // verus!
