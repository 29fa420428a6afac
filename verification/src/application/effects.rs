//! What the calls do to a window: how it is shown, and where, once they are made.

use vstd::prelude::*;

use crate::application::window_ops::WindowCall;
use crate::domain::placement::{PixelRect, SavedShowState};

verus! {

/// How a window is shown, and the rectangle that it takes when neither maximized nor minimized.
pub struct Shown {
    pub rect: PixelRect,
    pub state: SavedShowState,
}

/// Where a batch of moves puts a window that stood at `rect`.
pub open spec fn moved_to(moves: Seq<(isize, PixelRect)>, hwnd: isize, rect: PixelRect) -> PixelRect
    decreases moves.len(),
{
    if moves.len() == 0 {
        rect
    } else if moves.last().0 == hwnd {
        moves.last().1
    } else {
        moved_to(moves.drop_last(), hwnd, rect)
    }
}

/// A window once one call is made. A batch that did not go through leaves it where it was.
pub open spec fn step(s: Shown, hwnd: isize, call: WindowCall) -> Shown {
    match call {
        WindowCall::Restore { hwnd: h } => if h == hwnd {
            Shown { state: SavedShowState::Normal, ..s }
        } else {
            s
        },
        WindowCall::Maximize { hwnd: h } => if h == hwnd {
            Shown { state: SavedShowState::Maximized, ..s }
        } else {
            s
        },
        WindowCall::Minimize { hwnd: h } => if h == hwnd {
            Shown { state: SavedShowState::Minimized, ..s }
        } else {
            s
        },
        WindowCall::SetPlacement { hwnd: h, rect, maximized, .. } => if h == hwnd {
            placed(rect, maximized)
        } else {
            s
        },
        WindowCall::ExitFullscreen { hwnd: h, rect, maximized, .. } => if h == hwnd {
            placed(rect, maximized)
        } else {
            s
        },
        WindowCall::BatchMove { moves, done } => if done {
            Shown { rect: moved_to(moves, hwnd, s.rect), ..s }
        } else {
            s
        },
        _ => s,
    }
}

/// A window that was placed anew.
pub open spec fn placed(rect: PixelRect, maximized: bool) -> Shown {
    Shown {
        rect,
        state: if maximized {
            SavedShowState::Maximized
        } else {
            SavedShowState::Normal
        },
    }
}

/// A window once all calls are made, in their order.
pub open spec fn after(s: Shown, hwnd: isize, calls: Seq<WindowCall>) -> Shown
    decreases calls.len(),
{
    if calls.len() == 0 {
        s
    } else {
        step(after(s, hwnd, calls.drop_last()), hwnd, calls.last())
    }
}

/// The call can change no window but others than this.
pub open spec fn leaves_alone(call: WindowCall, hwnd: isize) -> bool {
    match call {
        WindowCall::Restore { hwnd: h } => h != hwnd,
        WindowCall::Maximize { hwnd: h } => h != hwnd,
        WindowCall::Minimize { hwnd: h } => h != hwnd,
        WindowCall::SetPlacement { hwnd: h, .. } => h != hwnd,
        WindowCall::ExitFullscreen { hwnd: h, .. } => h != hwnd,
        WindowCall::BatchMove { moves, .. } => forall|i: int|
            0 <= i < moves.len() ==> (#[trigger] moves[i]).0 != hwnd,
        _ => true,
    }
}

pub open spec fn all_leave_alone(calls: Seq<WindowCall>, hwnd: isize) -> bool {
    forall|i: int| 0 <= i < calls.len() ==> leaves_alone(#[trigger] calls[i], hwnd)
}

pub proof fn lemma_after_joined(s: Shown, hwnd: isize, a: Seq<WindowCall>, b: Seq<WindowCall>)
    ensures
        after(s, hwnd, a + b) == after(after(s, hwnd, a), hwnd, b),
    decreases b.len(),
{
    if b.len() == 0 {
        assert(a + b =~= a);
    } else {
        assert((a + b).drop_last() =~= a + b.drop_last());
        lemma_after_joined(s, hwnd, a, b.drop_last());
    }
}

pub proof fn lemma_after_push(s: Shown, hwnd: isize, a: Seq<WindowCall>, call: WindowCall)
    ensures
        after(s, hwnd, a.push(call)) == step(after(s, hwnd, a), hwnd, call),
{
    assert(a.push(call).drop_last() =~= a);
}

proof fn lemma_moved_elsewhere(moves: Seq<(isize, PixelRect)>, hwnd: isize, rect: PixelRect)
    requires
        forall|i: int| 0 <= i < moves.len() ==> (#[trigger] moves[i]).0 != hwnd,
    ensures
        moved_to(moves, hwnd, rect) == rect,
    decreases moves.len(),
{
    if moves.len() > 0 {
        let rest = moves.drop_last();
        assert forall|i: int| 0 <= i < rest.len() implies (#[trigger] rest[i]).0 != hwnd by {
            assert(rest[i] == moves[i]);
        }
        assert(moves[moves.len() - 1].0 != hwnd);
        lemma_moved_elsewhere(rest, hwnd, rect);
    }
}

/// A window that is in a batch once ends where the batch puts it.
pub proof fn lemma_moved_once(
    moves: Seq<(isize, PixelRect)>,
    k: int,
    rect: PixelRect,
)
    requires
        0 <= k < moves.len(),
        forall|i: int| k < i < moves.len() ==> (#[trigger] moves[i]).0 != moves[k].0,
    ensures
        moved_to(moves, moves[k].0, rect) == moves[k].1,
    decreases moves.len(),
{
    if k < moves.len() - 1 {
        let rest = moves.drop_last();
        assert(moves[moves.len() - 1].0 != moves[k].0);
        assert forall|i: int| k < i < rest.len() implies (#[trigger] rest[i]).0 != rest[k].0 by {
            assert(rest[i] == moves[i]);
        }
        lemma_moved_once(rest, k, rect);
    }
}

pub proof fn lemma_left_alone(s: Shown, hwnd: isize, calls: Seq<WindowCall>)
    requires
        all_leave_alone(calls, hwnd),
    ensures
        after(s, hwnd, calls) == s,
    decreases calls.len(),
{
    if calls.len() > 0 {
        let rest = calls.drop_last();
        assert forall|i: int| 0 <= i < rest.len() implies leaves_alone(
            #[trigger] rest[i],
            hwnd,
        ) by {
            assert(rest[i] == calls[i]);
        }
        lemma_left_alone(s, hwnd, rest);
        assert(leaves_alone(calls[calls.len() - 1], hwnd));
        if let WindowCall::BatchMove { moves, done } = calls.last() {
            lemma_moved_elsewhere(moves, hwnd, s.rect);
        }
    }
}

pub proof fn lemma_joined_leave_alone(a: Seq<WindowCall>, b: Seq<WindowCall>, hwnd: isize)
    requires
        all_leave_alone(a, hwnd),
        all_leave_alone(b, hwnd),
    ensures
        all_leave_alone(a + b, hwnd),
{
    assert forall|i: int| 0 <= i < (a + b).len() implies leaves_alone(
        #[trigger] (a + b)[i],
        hwnd,
    ) by {
        if i < a.len() {
            assert((a + b)[i] == a[i]);
        } else {
            assert((a + b)[i] == b[i - a.len()]);
        }
    }
}

/// What is on one side of a join is in it.
pub proof fn lemma_contained_in_join(a: Seq<WindowCall>, b: Seq<WindowCall>, call: WindowCall)
    requires
        a.contains(call) || b.contains(call),
    ensures
        (a + b).contains(call),
{
    if a.contains(call) {
        let i = choose|i: int| 0 <= i < a.len() && a[i] == call;
        assert((a + b)[i] == call);
    } else {
        let i = choose|i: int| 0 <= i < b.len() && b[i] == call;
        assert((a + b)[a.len() + i] == call);
    }
}

} // verus!
