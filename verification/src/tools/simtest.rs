//! The soak test: switches sets at random and checks that every window is where it was put.

use vstd::prelude::*;
use std::collections::HashSet;

use crate::counting;
use crate::domain::monitor::MonitorInfo;
use crate::domain::placement;
use crate::domain::placement::PixelRect;
use crate::domain::workset::Workset;
use crate::order;
use crate::order::Ranked;
use crate::text;

verus! {

broadcast use vstd::std_specs::hash::group_hash_axioms;

// ---------------------------------------------------------------------------
// Options
// ---------------------------------------------------------------------------

/// What the test is asked to do.
#[derive(Clone, Debug)]
pub struct Options {
    pub iters: usize,
    pub warmup: usize,
    pub settle_ms: u64,
    pub confirm_budget_ms: u64,
    pub out: Option<String>,
}

/// An [`Options`] as a mathematical value.
pub struct OptionsView {
    pub iters: nat,
    pub warmup: nat,
    pub settle_ms: nat,
    pub confirm_budget_ms: nat,
    pub out: Option<Seq<char>>,
}

impl View for Options {
    type V = OptionsView;

    open spec fn view(&self) -> OptionsView {
        OptionsView {
            iters: self.iters as nat,
            warmup: self.warmup as nat,
            settle_ms: self.settle_ms as nat,
            confirm_budget_ms: self.confirm_budget_ms as nat,
            out: text::opt_text(self.out),
        }
    }
}

/// The number behind a key, or the one that there was where it is missing or none.
pub open spec fn number_at(args: Seq<Seq<char>>, i: int, max: nat, before: nat) -> nat {
    if 0 <= i < args.len() {
        match text::unsigned_value(args[i], max) {
            Some(n) => n,
            None => before,
        }
    } else {
        before
    }
}

/// The options after the arguments from `i` on have been read. What is not known is passed over.
pub open spec fn options_from(args: Seq<Seq<char>>, i: int, o: OptionsView) -> OptionsView
    decreases args.len() + 2 - i,
{
    if i < 0 || i >= args.len() {
        o
    } else if args[i] == "--iters"@ {
        options_from(
            args,
            i + 2,
            OptionsView { iters: number_at(args, i + 1, usize::MAX as nat, o.iters), ..o },
        )
    } else if args[i] == "--warmup"@ {
        options_from(
            args,
            i + 2,
            OptionsView { warmup: number_at(args, i + 1, usize::MAX as nat, o.warmup), ..o },
        )
    } else if args[i] == "--settle-ms"@ {
        options_from(
            args,
            i + 2,
            OptionsView { settle_ms: number_at(args, i + 1, u64::MAX as nat, o.settle_ms), ..o },
        )
    } else if args[i] == "--confirm-ms"@ {
        options_from(
            args,
            i + 2,
            OptionsView {
                confirm_budget_ms: number_at(args, i + 1, u64::MAX as nat, o.confirm_budget_ms),
                ..o
            },
        )
    } else if args[i] == "--out"@ {
        options_from(
            args,
            i + 2,
            OptionsView {
                out: if i + 1 < args.len() {
                    Some(args[i + 1])
                } else {
                    None
                },
                ..o
            },
        )
    } else {
        options_from(args, i + 1, o)
    }
}

/// What is done where nothing is asked for.
pub open spec fn usual_options() -> OptionsView {
    OptionsView { iters: 300, warmup: 30, settle_ms: 1200, confirm_budget_ms: 8000, out: None }
}

fn read_number(args: &[String], i: usize, max: u64, before: u64) -> (r: u64)
    requires
        before <= max,
    ensures
        r == number_at(text::texts(args@), i as int, max as nat, before as nat),
        r <= max,
{
    if i < args.len() {
        let chars = text::chars_of(args[i].as_str());
        match text::parse_unsigned(&chars, max) {
            Some(n) => {
                proof {
                    text::lemma_unsigned_bound(chars@, max as nat);
                }
                n
            },
            None => before,
        }
    } else {
        before
    }
}

impl Options {
    pub fn parse(args: &[String]) -> (r: Options)
        ensures
            r@ == options_from(text::texts(args@), 0, usual_options()),
    {
        let ghost av = text::texts(args@);
        let mut o = Options {
            iters: 300,
            warmup: 30,
            settle_ms: 1200,
            confirm_budget_ms: 8000,
            out: None,
        };
        let n: usize = args.len();
        let mut i: usize = 0;
        while i < n
            invariant
                n == args@.len(),
                av == text::texts(args@),
                options_from(av, 0, usual_options()) == options_from(av, i as int, o@),
            decreases n - i,
        {
            let key = args[i].as_str();
            let ghost at = i as int;
            assert(av[i as int] == args@[i as int]@);
            if text::same_text(key, "--iters") {
                let v: u64 = read_number(args, i + 1, usize::MAX as u64, o.iters as u64);
                o.iters = v as usize;
                i += 1;
            } else if text::same_text(key, "--warmup") {
                let v: u64 = read_number(args, i + 1, usize::MAX as u64, o.warmup as u64);
                o.warmup = v as usize;
                i += 1;
            } else if text::same_text(key, "--settle-ms") {
                o.settle_ms = read_number(args, i + 1, u64::MAX, o.settle_ms);
                i += 1;
            } else if text::same_text(key, "--confirm-ms") {
                o.confirm_budget_ms = read_number(args, i + 1, u64::MAX, o.confirm_budget_ms);
                i += 1;
            } else if text::same_text(key, "--out") {
                o.out = if i + 1 < n {
                    Some(args[i + 1].clone())
                } else {
                    None
                };
                i += 1;
            }
            if i < n {
                i += 1;
            }
            proof {
                assert(options_from(av, n as int, o@) == o@);
                assert(options_from(av, n + 1, o@) == o@);
                assert(at + 1 < n ==> av[at + 1] == args@[at + 1]@);
            }
        }
        o
    }
}

// ---------------------------------------------------------------------------
// What is checked
// ---------------------------------------------------------------------------

/// The title holds one of the words by which windows are registered.
pub open spec fn names_one(title: Seq<char>, valid: Seq<String>) -> bool {
    exists|i: int|
        0 <= i < valid.len() && (#[trigger] valid[i])@.len() > 0 && text::occurs(title, valid[i]@)
}

pub fn is_configured(title: &str, valid: &[String]) -> (r: bool)
    ensures
        r == names_one(title@, valid@),
{
    let mut i: usize = 0;
    while i < valid.len()
        invariant
            i <= valid@.len(),
            forall|k: int|
                0 <= k < i ==> !((#[trigger] valid@[k])@.len() > 0 && text::occurs(
                    title@,
                    valid@[k]@,
                )),
        decreases valid@.len() - i,
    {
        let chars = text::chars_of(valid[i].as_str());
        if chars.len() > 0 && text::contains_text(title, valid[i].as_str()) {
            return true;
        }
        i += 1;
    }
    false
}

/// Where a window is meant to be.
#[derive(Clone, Copy, Debug, PartialEq, Eq, Structural)]
pub enum Intent {
    /// What is seen of it fills this cell.
    Fill(PixelRect),
    /// It is on the main screen that this rectangle lies on, at full size.
    Main(PixelRect),
    /// It is minimized.
    Minimize,
}

/// A window as it is found after a switch.
#[derive(Clone, Debug)]
pub struct SeenWindow {
    pub hwnd: isize,
    pub title: String,
    pub minimized: bool,
    /// What is seen of it, where that can be told.
    pub visible: Option<PixelRect>,
}

/// What the checks know of a switch.
pub struct CheckCtx<'a> {
    pub iter: usize,
    pub target_name: &'a str,
    pub main_ids: &'a [String],
    pub monitors: &'a [MonitorInfo],
}

/// A window that is not where it is meant to be.
#[derive(Clone, Debug)]
pub struct Failure {
    pub iter: usize,
    pub target: String,
    pub window: String,
    pub problem: String,
    pub detail: Option<(PixelRect, PixelRect)>,
}

/// A [`Failure`] as a mathematical value.
pub struct FailureView {
    pub iter: usize,
    pub target: Seq<char>,
    pub window: Seq<char>,
    pub problem: Seq<char>,
    pub detail: Option<(PixelRect, PixelRect)>,
}

impl View for Failure {
    type V = FailureView;

    open spec fn view(&self) -> FailureView {
        FailureView {
            iter: self.iter,
            target: self.target@,
            window: self.window@,
            problem: self.problem@,
            detail: self.detail,
        }
    }
}

pub open spec fn failures_view(s: Seq<Failure>) -> Seq<FailureView> {
    s.map_values(|f: Failure| f@)
}

pub open spec fn distance(a: int, b: int) -> int {
    if a >= b {
        a - b
    } else {
        b - a
    }
}

/// Two rectangles agree within the tolerances.
pub open spec fn agree(a: PixelRect, b: PixelRect, pos_tol: int, size_tol: int) -> bool {
    &&& distance(a.x as int, b.x as int) <= pos_tol
    &&& distance(a.y as int, b.y as int) <= pos_tol
    &&& distance(a.width as int, b.width as int) <= size_tol
    &&& distance(a.height as int, b.height as int) <= size_tol
}

fn apart(a: i32, b: i32) -> (r: i64)
    ensures
        r == distance(a as int, b as int),
{
    if a >= b {
        a as i64 - b as i64
    } else {
        b as i64 - a as i64
    }
}

pub fn rect_matches(a: &PixelRect, b: &PixelRect, pos_tol: i32, size_tol: i32) -> (r: bool)
    ensures
        r == agree(*a, *b, pos_tol as int, size_tol as int),
{
    apart(a.x, b.x) <= pos_tol as i64 && apart(a.y, b.y) <= pos_tol as i64 && apart(
        a.width,
        b.width,
    ) <= size_tol as i64 && apart(a.height, b.height) <= size_tol as i64
}

pub open spec fn center_test(monitors: Seq<MonitorInfo>, x: int, y: int) -> spec_fn(int) -> bool {
    |i: int| monitors[i].bounds_px.covers(x, y)
}

/// The first monitor that shows the point.
pub fn monitor_of_center<'a>(monitors: &'a [MonitorInfo], center: (i64, i64)) -> (r: Option<
    &'a MonitorInfo,
>)
    ensures
        match r {
            Some(m) => order::first_where(
                monitors@.len(),
                center_test(monitors@, center.0 as int, center.1 as int),
            ) matches Some(i) && 0 <= i < monitors@.len() && *m == monitors@[i],
            None => order::first_where(
                monitors@.len(),
                center_test(monitors@, center.0 as int, center.1 as int),
            ) is None,
        },
{
    let ghost test = center_test(monitors@, center.0 as int, center.1 as int);
    let mut i: usize = 0;
    while i < monitors.len()
        invariant
            i <= monitors@.len(),
            test == center_test(monitors@, center.0 as int, center.1 as int),
            forall|k: int| 0 <= k < i ==> !#[trigger] test(k),
        decreases monitors@.len() - i,
    {
        if monitors[i].bounds_px.contains_wide(center.0, center.1) {
            proof {
                order::lemma_first_where_some(monitors@.len(), test, i as int);
            }
            return Some(&monitors[i]);
        }
        i += 1;
    }
    proof {
        order::lemma_first_where_none(monitors@.len(), test);
    }
    None
}

/// How far two stretches run side by side.
pub open spec fn shared_length(a: int, a_len: int, b: int, b_len: int) -> int {
    placement::max_of(
        0,
        placement::min_of(a + a_len, b + b_len) - placement::max_of(a, b),
    )
}

/// The area that two rectangles share.
pub open spec fn shared_area(a: PixelRect, b: PixelRect) -> int {
    shared_length(a.x as int, a.width as int, b.x as int, b.width as int) * shared_length(
        a.y as int,
        a.height as int,
        b.y as int,
        b.height as int,
    )
}

fn shared(a: i32, a_len: i32, b: i32, b_len: i32) -> (r: i64)
    ensures
        r == shared_length(a as int, a_len as int, b as int, b_len as int),
        0 <= r <= 0x7fff_ffff,
{
    let a_end: i64 = a as i64 + a_len as i64;
    let b_end: i64 = b as i64 + b_len as i64;
    let end: i64 = if a_end <= b_end {
        a_end
    } else {
        b_end
    };
    let start: i64 = if a >= b {
        a as i64
    } else {
        b as i64
    };
    if end > start {
        end - start
    } else {
        0
    }
}

pub fn overlap_area(a: &PixelRect, b: &PixelRect) -> (r: i64)
    ensures
        r == shared_area(*a, *b),
        0 <= r,
{
    let x: i64 = shared(a.x, a.width, b.x, b.width);
    let y: i64 = shared(a.y, a.height, b.y, b.height);
    assert(0 <= x * y <= 0x7fff_ffff * 0x7fff_ffff) by (nonlinear_arith)
        requires
            0 <= x <= 0x7fff_ffff,
            0 <= y <= 0x7fff_ffff,
    ;
    x * y
}

/// More than seventeen twentieths of the area are covered.
pub open spec fn mostly_covered(win: PixelRect, area: PixelRect) -> bool {
    area.area() > 0 && 20 * shared_area(win, area) > 17 * area.area()
}

pub fn covers_most(win: &PixelRect, area: &PixelRect) -> (r: bool)
    ensures
        r == mostly_covered(*win, *area),
{
    let a: i64 = area.area_wide();
    let o: i64 = overlap_area(win, area);
    a > 0 && 20 * (o as i128) > 17 * (a as i128)
}

/// A window about as large as the monitor.
pub open spec fn about_full(vis: PixelRect, bounds: PixelRect) -> bool {
    distance(vis.width as int, bounds.width as int) < 40 && distance(
        vis.height as int,
        bounds.height as int,
    ) < 60
}

pub fn is_maximized_like(vis: &PixelRect, bounds: &PixelRect) -> (r: bool)
    ensures
        r == about_full(*vis, *bounds),
{
    apart(vis.width, bounds.width) < 40 && apart(vis.height, bounds.height) < 60
}

/// A margin can be taken off the rectangle on every side.
pub open spec fn has_room(r: PixelRect, m: int) -> bool {
    &&& r.x + m <= i32::MAX
    &&& r.y + m <= i32::MAX
    &&& r.width - 2 * m >= i32::MIN
    &&& r.height - 2 * m >= i32::MIN
}

/// The rectangle without a margin on every side.
pub open spec fn eroded(r: PixelRect, m: int) -> PixelRect {
    PixelRect {
        x: (r.x + m) as i32,
        y: (r.y + m) as i32,
        width: placement::max_of(r.width - 2 * m, 0) as i32,
        height: placement::max_of(r.height - 2 * m, 0) as i32,
    }
}

pub fn erode(r: PixelRect, m: i32) -> (s: PixelRect)
    requires
        0 <= m <= 0x3fff_ffff,
        has_room(r, m as int),
    ensures
        s == eroded(r, m as int),
{
    let w: i32 = r.width - 2 * m;
    let h: i32 = r.height - 2 * m;
    PixelRect::new(
        r.x + m,
        r.y + m,
        if w > 0 {
            w
        } else {
            0
        },
        if h > 0 {
            h
        } else {
            0
        },
    )
}

/// The margin within which windows may seem to overlap.
pub const ERODE: i32 = 20;

/// The last window with the handle.
pub open spec fn seen_at(windows: Seq<SeenWindow>, hwnd: isize) -> Option<SeenWindow>
    decreases windows.len(),
{
    if windows.len() == 0 {
        None
    } else if windows.last().hwnd == hwnd {
        Some(windows.last())
    } else {
        seen_at(windows.drop_last(), hwnd)
    }
}

/// What is wrong with one window, given where it is meant to be: the problem, and where it is
/// against where it should be.
pub open spec fn judged(
    intent: Intent,
    w: SeenWindow,
    main_ids: Seq<String>,
    monitors: Seq<MonitorInfo>,
) -> Option<(Seq<char>, Option<(PixelRect, PixelRect)>)> {
    match intent {
        Intent::Minimize => if w.minimized {
            None
        } else {
            Some(("should be minimized (overflow) but is not"@, None))
        },
        Intent::Fill(cell) => match w.visible {
            Some(vis) => if agree(vis, cell, 30, 60) {
                None
            } else {
                Some(("drifted from its parking cell"@, Some((vis, cell))))
            },
            None => None,
        },
        Intent::Main(rect) => match order::first_where(
            monitors.len(),
            center_test(monitors, rect.mid_x(), rect.mid_y()),
        ) {
            Some(i) => match w.visible {
                Some(vis) => {
                    let mon = monitors[i];
                    if !crate::application::monitor_resolution::names(main_ids, mon.device_name@) {
                        Some(("target restored onto a non-main monitor"@, None))
                    } else if !mostly_covered(vis, mon.work_area_px) && !about_full(
                        vis,
                        mon.bounds_px,
                    ) {
                        Some(
                            (
                                "target on main but not (near-)full monitor"@,
                                Some((vis, mon.work_area_px)),
                            ),
                        )
                    } else {
                        None
                    }
                },
                None => None,
            },
            None => None,
        },
    }
}

/// What is wrong with the windows that were meant to be somewhere.
pub open spec fn misplaced(
    iter: usize,
    target: Seq<char>,
    main_ids: Seq<String>,
    monitors: Seq<MonitorInfo>,
    intents: Seq<(isize, Intent)>,
    windows: Seq<SeenWindow>,
) -> Seq<FailureView>
    decreases intents.len(),
{
    if intents.len() == 0 {
        Seq::empty()
    } else {
        let before = misplaced(iter, target, main_ids, monitors, intents.drop_last(), windows);
        match seen_at(windows, intents.last().0) {
            Some(w) => match judged(intents.last().1, w, main_ids, monitors) {
                Some((problem, detail)) => before.push(
                    FailureView { iter, target, window: w.title@, problem, detail },
                ),
                None => before,
            },
            None => before,
        }
    }
}

pub open spec fn is_meant(intents: Seq<(isize, Intent)>, hwnd: isize) -> bool {
    exists|i: int| 0 <= i < intents.len() && (#[trigger] intents[i]).0 == hwnd
}

/// The windows in sight that were not meant to be anywhere.
pub open spec fn left_over(
    iter: usize,
    target: Seq<char>,
    intents: Seq<(isize, Intent)>,
    windows: Seq<SeenWindow>,
) -> Seq<FailureView>
    decreases windows.len(),
{
    if windows.len() == 0 {
        Seq::empty()
    } else {
        let before = left_over(iter, target, intents, windows.drop_last());
        let w = windows.last();
        if !is_meant(intents, w.hwnd) && !w.minimized {
            before.push(
                FailureView {
                    iter,
                    target,
                    window: w.title@,
                    problem: "live SET window not managed this switch (unmatched / left in place)"@,
                    detail: None,
                },
            )
        } else {
            before
        }
    }
}

/// The windows in sight, each with what is seen of it less a margin.
pub open spec fn in_sight(windows: Seq<SeenWindow>) -> Seq<(Seq<char>, PixelRect)>
    decreases windows.len(),
{
    if windows.len() == 0 {
        Seq::empty()
    } else {
        let before = in_sight(windows.drop_last());
        let w = windows.last();
        match w.visible {
            Some(r) => if w.minimized {
                before
            } else {
                before.push((w.title@, eroded(r, ERODE as int)))
            },
            None => before,
        }
    }
}

/// What is wrong with the window at `i` and those at `i + 1` up to `j`.
pub open spec fn clashes_with(
    iter: usize,
    target: Seq<char>,
    seen: Seq<(Seq<char>, PixelRect)>,
    i: int,
    j: int,
) -> Seq<FailureView>
    decreases j,
{
    if j <= i + 1 || i < 0 {
        Seq::empty()
    } else {
        let before = clashes_with(iter, target, seen, i, j - 1);
        if shared_area(seen[i].1, seen[j - 1].1) > 4000 {
            before.push(
                FailureView {
                    iter,
                    target,
                    window: seen[i].0 + " × "@ + seen[j - 1].0,
                    problem: "two visible windows overlap"@,
                    detail: Some((seen[i].1, seen[j - 1].1)),
                },
            )
        } else {
            before
        }
    }
}

/// What is wrong with the first `n` windows in sight, each with those behind it.
pub open spec fn clashes(
    iter: usize,
    target: Seq<char>,
    seen: Seq<(Seq<char>, PixelRect)>,
    n: nat,
) -> Seq<FailureView>
    decreases n,
{
    if n == 0 {
        Seq::empty()
    } else {
        clashes(iter, target, seen, (n - 1) as nat) + clashes_with(
            iter,
            target,
            seen,
            n - 1,
            seen.len() as int,
        )
    }
}

/// Everything that is wrong after a switch.
pub open spec fn all_failures(
    iter: usize,
    target: Seq<char>,
    main_ids: Seq<String>,
    monitors: Seq<MonitorInfo>,
    intents: Seq<(isize, Intent)>,
    windows: Seq<SeenWindow>,
) -> Seq<FailureView> {
    let seen = in_sight(windows);
    misplaced(iter, target, main_ids, monitors, intents, windows) + left_over(
        iter,
        target,
        intents,
        windows,
    ) + clashes(iter, target, seen, seen.len())
}

fn find_seen<'a>(windows: &'a [SeenWindow], hwnd: isize) -> (r: Option<&'a SeenWindow>)
    ensures
        match r {
            Some(w) => seen_at(windows@, hwnd) == Some(*w),
            None => seen_at(windows@, hwnd) is None,
        },
{
    let mut i: usize = windows.len();
    assert(windows@.take(i as int) =~= windows@);
    while i > 0
        invariant
            i <= windows@.len(),
            seen_at(windows@, hwnd) == seen_at(windows@.take(i as int), hwnd),
        decreases i,
    {
        i -= 1;
        proof {
            assert(windows@.take(i + 1).drop_last() =~= windows@.take(i as int));
            assert(windows@.take(i + 1).last() == windows@[i as int]);
        }
        if windows[i].hwnd == hwnd {
            return Some(&windows[i]);
        }
    }
    None
}

fn judge(ctx: &CheckCtx, intent: Intent, w: &SeenWindow) -> (r: Option<
    (&'static str, Option<(PixelRect, PixelRect)>),
>)
    ensures
        match r {
            Some((problem, detail)) => judged(intent, *w, ctx.main_ids@, ctx.monitors@) == Some(
                (problem@, detail),
            ),
            None => judged(intent, *w, ctx.main_ids@, ctx.monitors@) is None,
        },
{
    match intent {
        Intent::Minimize => if w.minimized {
            None
        } else {
            Some(("should be minimized (overflow) but is not", None))
        },
        Intent::Fill(cell) => match w.visible {
            Some(vis) => if rect_matches(&vis, &cell, 30, 60) {
                None
            } else {
                Some(("drifted from its parking cell", Some((vis, cell))))
            },
            None => None,
        },
        Intent::Main(rect) => {
            let mon = match monitor_of_center(ctx.monitors, rect.center_wide()) {
                Some(m) => m,
                None => {
                    return None;
                },
            };
            match w.visible {
                Some(vis) => {
                    if !crate::application::monitor_resolution::is_named(
                        ctx.main_ids,
                        mon.device_name.as_str(),
                    ) {
                        Some(("target restored onto a non-main monitor", None))
                    } else if !covers_most(&vis, &mon.work_area_px) && !is_maximized_like(
                        &vis,
                        &mon.bounds_px,
                    ) {
                        Some(
                            (
                                "target on main but not (near-)full monitor",
                                Some((vis, mon.work_area_px)),
                            ),
                        )
                    } else {
                        None
                    }
                },
                None => None,
            }
        },
    }
}

fn record(
    ctx: &CheckCtx,
    out: &mut Vec<Failure>,
    window: String,
    problem: &str,
    detail: Option<(PixelRect, PixelRect)>,
)
    ensures
        failures_view(final(out)@) == failures_view(old(out)@).push(
            FailureView {
                iter: ctx.iter,
                target: ctx.target_name@,
                window: window@,
                problem: problem@,
                detail,
            },
        ),
{
    let ghost before = out@;
    let ghost one = FailureView {
        iter: ctx.iter,
        target: ctx.target_name@,
        window: window@,
        problem: problem@,
        detail,
    };
    out.push(
        Failure {
            iter: ctx.iter,
            target: text::owned(ctx.target_name),
            window,
            problem: text::owned(problem),
            detail,
        },
    );
    assert(failures_view(out@) =~= failures_view(before).push(one));
}

fn check_intents(
    ctx: &CheckCtx,
    intents: &[(isize, Intent)],
    windows: &[SeenWindow],
    out: &mut Vec<Failure>,
)
    ensures
        failures_view(final(out)@) == failures_view(old(out)@) + misplaced(
            ctx.iter,
            ctx.target_name@,
            ctx.main_ids@,
            ctx.monitors@,
            intents@,
            windows@,
        ),
{
    let ghost start = failures_view(out@);
    let ghost ids = ctx.main_ids@;
    let ghost mons = ctx.monitors@;
    let ghost name = ctx.target_name@;
    let mut i: usize = 0;
    assert(start + misplaced(ctx.iter, name, ids, mons, intents@.take(0), windows@) =~= start);
    while i < intents.len()
        invariant
            i <= intents@.len(),
            ids == ctx.main_ids@,
            mons == ctx.monitors@,
            name == ctx.target_name@,
            failures_view(out@) == start + misplaced(
                ctx.iter,
                name,
                ids,
                mons,
                intents@.take(i as int),
                windows@,
            ),
        decreases intents@.len() - i,
    {
        proof {
            assert(intents@.take(i + 1).drop_last() =~= intents@.take(i as int));
            assert(intents@.take(i + 1).last() == intents@[i as int]);
        }
        if let Some(w) = find_seen(windows, intents[i].0) {
            if let Some((problem, detail)) = judge(ctx, intents[i].1, w) {
                record(ctx, out, w.title.clone(), problem, detail);
            }
        }
        assert(failures_view(out@) =~= start + misplaced(
            ctx.iter,
            name,
            ids,
            mons,
            intents@.take(i + 1),
            windows@,
        ));
        i += 1;
    }
    assert(intents@.take(intents@.len() as int) =~= intents@);
}

fn check_left_over(
    ctx: &CheckCtx,
    intents: &[(isize, Intent)],
    windows: &[SeenWindow],
    out: &mut Vec<Failure>,
)
    ensures
        failures_view(final(out)@) == failures_view(old(out)@) + left_over(
            ctx.iter,
            ctx.target_name@,
            intents@,
            windows@,
        ),
{
    let ghost start = failures_view(out@);
    let mut meant: HashSet<isize> = HashSet::new();
    let mut k: usize = 0;
    while k < intents.len()
        invariant
            k <= intents@.len(),
            forall|h: isize| #[trigger]
                meant@.contains(h) <==> exists|i: int|
                    0 <= i < k && (#[trigger] intents@[i]).0 == h,
        decreases intents@.len() - k,
    {
        let ghost before = meant@;
        let h: isize = intents[k].0;
        meant.insert(h);
        proof {
            assert forall|x: isize| #[trigger] meant@.contains(x) <==> exists|i: int|
                0 <= i < k + 1 && (#[trigger] intents@[i]).0 == x by {
                if x == h {
                    assert(intents@[k as int].0 == x);
                } else if before.contains(x) {
                    let i = choose|i: int| 0 <= i < k && (#[trigger] intents@[i]).0 == x;
                    assert(intents@[i].0 == x);
                }
            }
        }
        k += 1;
    }
    let ghost name = ctx.target_name@;
    let mut i: usize = 0;
    assert(start + left_over(ctx.iter, name, intents@, windows@.take(0)) =~= start);
    while i < windows.len()
        invariant
            i <= windows@.len(),
            name == ctx.target_name@,
            forall|h: isize| #[trigger] meant@.contains(h) <==> is_meant(intents@, h),
            failures_view(out@) == start + left_over(
                ctx.iter,
                name,
                intents@,
                windows@.take(i as int),
            ),
        decreases windows@.len() - i,
    {
        proof {
            assert(windows@.take(i + 1).drop_last() =~= windows@.take(i as int));
            assert(windows@.take(i + 1).last() == windows@[i as int]);
        }
        let w = &windows[i];
        if !meant.contains(&w.hwnd) && !w.minimized {
            record(
                ctx,
                out,
                w.title.clone(),
                "live SET window not managed this switch (unmatched / left in place)",
                None,
            );
        }
        assert(failures_view(out@) =~= start + left_over(
            ctx.iter,
            name,
            intents@,
            windows@.take(i + 1),
        ));
        i += 1;
    }
    assert(windows@.take(windows@.len() as int) =~= windows@);
}

pub open spec fn pairs_view(s: Seq<(String, PixelRect)>) -> Seq<(Seq<char>, PixelRect)> {
    s.map_values(|p: (String, PixelRect)| (p.0@, p.1))
}

fn collect_in_sight(windows: &[SeenWindow]) -> (r: Vec<(String, PixelRect)>)
    requires
        forall|i: int|
            0 <= i < windows@.len() ==> ((#[trigger] windows@[i]).visible matches Some(v)
                ==> has_room(v, ERODE as int)),
    ensures
        pairs_view(r@) == in_sight(windows@),
{
    let mut out: Vec<(String, PixelRect)> = Vec::new();
    let mut i: usize = 0;
    assert(pairs_view(out@) =~= in_sight(windows@.take(0)));
    while i < windows.len()
        invariant
            i <= windows@.len(),
            forall|k: int|
                0 <= k < windows@.len() ==> ((#[trigger] windows@[k]).visible matches Some(v)
                    ==> has_room(v, ERODE as int)),
            pairs_view(out@) == in_sight(windows@.take(i as int)),
        decreases windows@.len() - i,
    {
        let ghost before = out@;
        proof {
            assert(windows@.take(i + 1).drop_last() =~= windows@.take(i as int));
            assert(windows@.take(i + 1).last() == windows@[i as int]);
        }
        let w = &windows[i];
        if let Some(v) = w.visible {
            if !w.minimized {
                let e = erode(v, ERODE);
                out.push((w.title.clone(), e));
                assert(pairs_view(out@) =~= pairs_view(before).push((w.title@, e)));
            }
        }
        i += 1;
    }
    assert(windows@.take(windows@.len() as int) =~= windows@);
    out
}

fn check_clashes(ctx: &CheckCtx, seen: &Vec<(String, PixelRect)>, out: &mut Vec<Failure>)
    ensures
        failures_view(final(out)@) == failures_view(old(out)@) + clashes(
            ctx.iter,
            ctx.target_name@,
            pairs_view(seen@),
            seen@.len(),
        ),
{
    let ghost start = failures_view(out@);
    let ghost sv = pairs_view(seen@);
    let ghost name = ctx.target_name@;
    let n: usize = seen.len();
    let mut i: usize = 0;
    assert(start + clashes(ctx.iter, name, sv, 0) =~= start);
    while i < n
        invariant
            i <= n == seen@.len(),
            sv == pairs_view(seen@),
            name == ctx.target_name@,
            failures_view(out@) == start + clashes(ctx.iter, name, sv, i as nat),
        decreases n - i,
    {
        let ghost before = failures_view(out@);
        let mut j: usize = i + 1;
        assert(before + clashes_with(ctx.iter, name, sv, i as int, j as int) =~= before);
        while j < n
            invariant
                i < j <= n == seen@.len(),
                sv == pairs_view(seen@),
                name == ctx.target_name@,
                failures_view(out@) == before + clashes_with(
                    ctx.iter,
                    name,
                    sv,
                    i as int,
                    j as int,
                ),
            decreases n - j,
        {
            assert(sv[i as int] == (seen@[i as int].0@, seen@[i as int].1));
            assert(sv[j as int] == (seen@[j as int].0@, seen@[j as int].1));
            if overlap_area(&seen[i].1, &seen[j].1) > 4000 {
                let both = text::joined3(seen[i].0.as_str(), " × ", seen[j].0.as_str());
                record(
                    ctx,
                    out,
                    both,
                    "two visible windows overlap",
                    Some((seen[i].1, seen[j].1)),
                );
            }
            assert(failures_view(out@) =~= before + clashes_with(
                ctx.iter,
                name,
                sv,
                i as int,
                j + 1,
            ));
            j += 1;
        }
        assert(failures_view(out@) =~= start + clashes(ctx.iter, name, sv, (i + 1) as nat));
        i += 1;
    }
}

/// Checks that every window is where it was meant to be, that none was forgotten, and that no two
/// are on top of each other.
pub fn check(ctx: &CheckCtx, intents: &[(isize, Intent)], windows: &[SeenWindow]) -> (r: Vec<
    Failure,
>)
    requires
        forall|i: int|
            0 <= i < windows@.len() ==> ((#[trigger] windows@[i]).visible matches Some(v)
                ==> has_room(v, ERODE as int)),
    ensures
        failures_view(r@) == all_failures(
            ctx.iter,
            ctx.target_name@,
            ctx.main_ids@,
            ctx.monitors@,
            intents@,
            windows@,
        ),
{
    let mut out: Vec<Failure> = Vec::new();
    let ghost none = failures_view(out@);
    check_intents(ctx, intents, windows, &mut out);
    check_left_over(ctx, intents, windows, &mut out);
    let seen = collect_in_sight(windows);
    assert(pairs_view(seen@).len() == seen@.len());
    check_clashes(ctx, &seen, &mut out);
    assert(failures_view(out@) =~= all_failures(
        ctx.iter,
        ctx.target_name@,
        ctx.main_ids@,
        ctx.monitors@,
        intents@,
        windows@,
    ));
    out
}

// ---------------------------------------------------------------------------
// Reading the log
// ---------------------------------------------------------------------------

/// The first place at which `needle` stands in `hay`.
pub open spec fn first_at(hay: Seq<char>, needle: Seq<char>) -> Option<int> {
    order::first_where((hay.len() + 1) as nat, |i: int| text::occurs_at(hay, needle, i))
}

/// How many characters of a number a text begins with.
pub open spec fn number_len(s: Seq<char>) -> int
    decreases s.len(),
{
    if s.len() > 0 && (text::is_digit(s[0]) || s[0] == '-') {
        1 + number_len(s.skip(1))
    } else {
        0
    }
}

/// The number behind the first `key` on a line.
pub open spec fn field_of(line: Seq<char>, key: Seq<char>) -> Option<int> {
    match first_at(line, key) {
        Some(at) => {
            let rest = line.skip(at + key.len());
            text::signed_value(rest.take(number_len(rest)), isize::MIN as int, isize::MAX as int)
        },
        None => None,
    }
}

fn find_first(hay: &Vec<char>, needle: &Vec<char>) -> (r: Option<usize>)
    ensures
        match r {
            Some(at) => first_at(hay@, needle@) == Some(at as int) && text::occurs_at(
                hay@,
                needle@,
                at as int,
            ),
            None => first_at(hay@, needle@) is None,
        },
{
    let found = text::find_from(hay, needle, 0);
    proof {
        let n = (hay@.len() + 1) as nat;
        let test = |i: int| text::occurs_at(hay@, needle@, i);
        match found {
            Some(at) => {
                assert forall|j: int| 0 <= j < at implies !#[trigger] test(j) by {
                    assert(!text::occurs_at(hay@, needle@, j));
                }
                assert(at < n);
                order::lemma_first_where_some(n, test, at as int);
            },
            None => {
                assert forall|j: int| 0 <= j < n implies !#[trigger] test(j) by {
                    assert(!text::occurs_at(hay@, needle@, j));
                }
                order::lemma_first_where_none(n, test);
            },
        }
    }
    found
}

fn read_field(chars: &Vec<char>, key: &str) -> (r: Option<isize>)
    ensures
        match r {
            Some(v) => field_of(chars@, key@) == Some(v as int),
            None => field_of(chars@, key@) is None,
        },
{
    let wanted = text::chars_of(key);
    let at: usize = match find_first(chars, &wanted) {
        Some(at) => at,
        None => {
            return None;
        },
    };
    let n: usize = chars.len();
    let from: usize = at + wanted.len();
    let ghost rest = chars@.skip(from as int);
    let mut run: Vec<char> = Vec::new();
    let mut i: usize = from;
    assert(rest.skip(0) =~= rest);
    while i < n && ((chars[i] >= '0' && chars[i] <= '9') || chars[i] == '-')
        invariant
            from <= i <= n == chars@.len(),
            rest == chars@.skip(from as int),
            run@ == rest.take(i - from),
            number_len(rest) == (i - from) + number_len(rest.skip(i - from)),
        decreases n - i,
    {
        proof {
            let k = i - from;
            assert(rest[k] == chars@[i as int]);
            assert(rest.skip(k)[0] == rest[k]);
            assert(rest.skip(k).skip(1) =~= rest.skip(k + 1));
        }
        run.push(chars[i]);
        assert(run@ =~= rest.take(i + 1 - from));
        i += 1;
    }
    proof {
        let k = i - from;
        if i < n {
            assert(rest.skip(k)[0] == chars@[i as int]);
        }
        assert(number_len(rest.skip(k)) == 0);
    }
    match text::parse_signed(&run, isize::MIN as i64, isize::MAX as i64) {
        Some(v) => {
            proof {
                text::lemma_signed_bound(run@, isize::MIN as int, isize::MAX as int);
            }
            Some(v as isize)
        },
        None => None,
    }
}

/// The rectangle that is written out on a line.
pub open spec fn rect_on(line: Seq<char>) -> Option<PixelRect> {
    match first_at(line, "PixelRect {"@) {
        Some(at) => {
            let body = line.skip(at);
            match (
                field_of(body, "x: "@),
                field_of(body, "y: "@),
                field_of(body, "width: "@),
                field_of(body, "height: "@),
            ) {
                (Some(x), Some(y), Some(w), Some(h)) => Some(
                    PixelRect {
                        x: (x as isize) as i32,
                        y: (y as isize) as i32,
                        width: (w as isize) as i32,
                        height: (h as isize) as i32,
                    },
                ),
                _ => None,
            }
        },
        None => None,
    }
}

fn read_rect(chars: &Vec<char>) -> (r: Option<PixelRect>)
    ensures
        r == rect_on(chars@),
{
    let mark = text::chars_of("PixelRect {");
    let at: usize = match find_first(chars, &mark) {
        Some(at) => at,
        None => {
            return None;
        },
    };
    let mut body: Vec<char> = Vec::new();
    let n: usize = chars.len();
    let mut i: usize = at;
    while i < n
        invariant
            at <= i <= n == chars@.len(),
            body@ == chars@.subrange(at as int, i as int),
        decreases n - i,
    {
        body.push(chars[i]);
        assert(body@ =~= chars@.subrange(at as int, i + 1));
        i += 1;
    }
    assert(body@ =~= chars@.skip(at as int));
    match (
        read_field(&body, "x: "),
        read_field(&body, "y: "),
        read_field(&body, "width: "),
        read_field(&body, "height: "),
    ) {
        (Some(x), Some(y), Some(w), Some(h)) => Some(
            PixelRect::new(x as i32, y as i32, w as i32, h as i32),
        ),
        _ => None,
    }
}

/// Where a line says that a window goes.
pub open spec fn intent_on(line: Seq<char>) -> Option<(isize, Intent)> {
    let hwnd = field_of(line, "hwnd="@);
    let rect = rect_on(line);
    if text::occurs(line, "no room, minimizing"@) {
        match hwnd {
            Some(h) => Some((h as isize, Intent::Minimize)),
            None => None,
        }
    } else if text::occurs(line, "restore target window to main"@) {
        match (hwnd, rect) {
            (Some(h), Some(r)) => Some((h as isize, Intent::Main(r))),
            _ => None,
        }
    } else if text::occurs(line, "park window into cell"@) || text::occurs(
        line,
        "place window into cell"@,
    ) || text::occurs(line, "tiling target across main"@) {
        match (hwnd, rect) {
            (Some(h), Some(r)) => Some((h as isize, Intent::Fill(r))),
            _ => None,
        }
    } else {
        None
    }
}

pub open spec fn intents_on(lines: Seq<Seq<char>>) -> Seq<(isize, Intent)>
    decreases lines.len(),
{
    if lines.len() == 0 {
        Seq::empty()
    } else {
        let before = intents_on(lines.drop_last());
        match intent_on(lines.last()) {
            Some(i) => before.push(i),
            None => before,
        }
    }
}

fn read_intent(line: &str) -> (r: Option<(isize, Intent)>)
    ensures
        r == intent_on(line@),
{
    let chars = text::chars_of(line);
    if text::contains_text(line, "no room, minimizing") {
        match read_field(&chars, "hwnd=") {
            Some(h) => Some((h, Intent::Minimize)),
            None => None,
        }
    } else if text::contains_text(line, "restore target window to main") {
        match (read_field(&chars, "hwnd="), read_rect(&chars)) {
            (Some(h), Some(r)) => Some((h, Intent::Main(r))),
            _ => None,
        }
    } else if text::contains_text(line, "park window into cell") || text::contains_text(
        line,
        "place window into cell",
    ) || text::contains_text(line, "tiling target across main") {
        match (read_field(&chars, "hwnd="), read_rect(&chars)) {
            (Some(h), Some(r)) => Some((h, Intent::Fill(r))),
            _ => None,
        }
    } else {
        None
    }
}

/// Where the lines of a log say that windows go.
pub fn parse_intents(slice: &str) -> (r: Vec<(isize, Intent)>)
    ensures
        r@ == intents_on(text::split_on(slice@, '\n')),
{
    let lines = text::split_text(slice, '\n');
    let ghost lv = text::texts(lines@);
    let mut out: Vec<(isize, Intent)> = Vec::new();
    let mut i: usize = 0;
    assert(out@ =~= intents_on(lv.take(0)));
    while i < lines.len()
        invariant
            i <= lines@.len(),
            lv == text::texts(lines@),
            out@ == intents_on(lv.take(i as int)),
        decreases lines@.len() - i,
    {
        proof {
            assert(lv.take(i + 1).drop_last() =~= lv.take(i as int));
            assert(lv.take(i + 1).last() == lines@[i as int]@);
        }
        if let Some(one) = read_intent(lines[i].as_str()) {
            out.push(one);
        }
        i += 1;
    }
    assert(lv.take(lv.len() as int) =~= lv);
    out
}

// ---------------------------------------------------------------------------
// Chance
// ---------------------------------------------------------------------------

/// A small generator of numbers that look random.
#[derive(Clone, Copy, Debug)]
pub struct Rng(pub u64);

pub open spec fn shift_a(x: u64) -> u64 {
    x ^ (x << 13)
}

pub open spec fn shift_b(x: u64) -> u64 {
    x ^ (x >> 7)
}

pub open spec fn shift_c(x: u64) -> u64 {
    x ^ (x << 17)
}

/// The number that follows another.
pub open spec fn follow(x: u64) -> u64 {
    shift_c(shift_b(shift_a(x)))
}

impl Rng {
    /// A generator that starts from the clock, in nanoseconds, or from a fixed number.
    pub fn seeded(nanos: Option<u64>) -> (r: Rng)
        ensures
            r.0 == (match nanos {
                Some(n) => n,
                None => 0x9E37_79B9_7F4A_7C15u64,
            }) | 1,
            r.0 != 0,
    {
        let n: u64 = match nanos {
            Some(n) => n,
            None => 0x9E37_79B9_7F4A_7C15,
        };
        assert(n | 1 != 0) by (bit_vector);
        Rng(n | 1)
    }

    pub fn next_u64(&mut self) -> (r: u64)
        ensures
            r == follow(old(self).0),
            final(self).0 == r,
    {
        let mut x: u64 = self.0;
        x = x ^ (x << 13);
        x = x ^ (x >> 7);
        x = x ^ (x << 17);
        self.0 = x;
        x
    }

    pub fn below(&mut self, n: usize) -> (r: usize)
        requires
            n > 0,
        ensures
            r == follow(old(self).0) % (n as u64),
            r < n,
            final(self).0 == follow(old(self).0),
    {
        let m: u64 = n as u64;
        let x: u64 = self.next_u64();
        let v: u64 = x % m;
        v as usize
    }

    /// A set to switch to, or nothing where it is the one that is there already and another try
    /// has to be made.
    pub fn pick(&mut self, n: usize, current: Option<usize>) -> (r: Option<usize>)
        requires
            n > 0,
        ensures
            final(self).0 == follow(old(self).0),
            ({
                let t = follow(old(self).0) % (n as u64);
                match r {
                    Some(target) => target == t && target < n && (n == 1 || current != Some(
                        target,
                    )),
                    None => n > 1 && current is Some && current->0 == t,
                }
            }),
    {
        let target: usize = self.below(n);
        match current {
            Some(c) => if n > 1 && c == target {
                None
            } else {
                Some(target)
            },
            None => Some(target),
        }
    }
}

/// The generator never gets stuck at zero.
pub proof fn law_generator_never_sticks(x: u64)
    requires
        x != 0,
    ensures
        follow(x) != 0,
{
    let a = shift_a(x);
    assert(a != 0) by (bit_vector)
        requires
            a == x ^ (x << 13),
            x != 0,
    ;
    let b = shift_b(a);
    assert(b != 0) by (bit_vector)
        requires
            b == a ^ (a >> 7),
            a != 0,
    ;
    let c = shift_c(b);
    assert(c != 0) by (bit_vector)
        requires
            c == b ^ (b << 17),
            b != 0,
    ;
}

// ---------------------------------------------------------------------------
// The report
// ---------------------------------------------------------------------------

pub open spec fn titles_in(worksets: Seq<Workset>) -> Seq<Seq<char>>
    decreases worksets.len(),
{
    if worksets.len() == 0 {
        Seq::empty()
    } else {
        titles_in(worksets.drop_last()) + titles_of(worksets.last().windows@)
    }
}

/// The words by which some windows are registered.
pub open spec fn titles_of(windows: Seq<crate::domain::workset::ManagedWindow>) -> Seq<Seq<char>>
    decreases windows.len(),
{
    if windows.len() == 0 {
        Seq::empty()
    } else {
        let before = titles_of(windows.drop_last());
        match windows.last().matcher.title_contains {
            Some(t) => before.push(t@),
            None => before,
        }
    }
}

/// The words by which all windows are registered.
pub fn configured_titles(worksets: &[Workset]) -> (r: Vec<String>)
    ensures
        text::texts(r@) == titles_in(worksets@),
{
    let mut out: Vec<String> = Vec::new();
    let mut i: usize = 0;
    assert(text::texts(out@) =~= titles_in(worksets@.take(0)));
    while i < worksets.len()
        invariant
            i <= worksets@.len(),
            text::texts(out@) == titles_in(worksets@.take(i as int)),
        decreases worksets@.len() - i,
    {
        let windows = &worksets[i].windows;
        let ghost start = text::texts(out@);
        proof {
            assert(worksets@.take(i + 1).drop_last() =~= worksets@.take(i as int));
            assert(worksets@.take(i + 1).last() == worksets@[i as int]);
            assert(start + titles_of(windows@.take(0)) =~= start);
        }
        let mut k: usize = 0;
        while k < windows.len()
            invariant
                k <= windows@.len(),
                text::texts(out@) == start + titles_of(windows@.take(k as int)),
            decreases windows@.len() - k,
        {
            let ghost before = out@;
            proof {
                assert(windows@.take(k + 1).drop_last() =~= windows@.take(k as int));
                assert(windows@.take(k + 1).last() == windows@[k as int]);
            }
            if let Some(t) = &windows[k].matcher.title_contains {
                out.push(t.clone());
                assert(text::texts(out@) =~= text::texts(before).push(t@));
            }
            assert(text::texts(out@) =~= start + titles_of(windows@.take(k + 1)));
            k += 1;
        }
        assert(windows@.take(windows@.len() as int) =~= windows@);
        i += 1;
    }
    assert(worksets@.take(worksets@.len() as int) =~= worksets@);
    out
}

/// How many milliseconds pass before a failed check is repeated.
pub const CONFIRM_PAUSE: u64 = 1000;

/// How long will have been waited once a failed check is repeated.
pub open spec fn waited_on(waited: u64) -> int {
    if waited + CONFIRM_PAUSE > u64::MAX {
        u64::MAX as int
    } else {
        waited + CONFIRM_PAUSE
    }
}

/// Whether a check with that many failures is repeated, and how long will have been waited then: as
/// long as something is wrong and the budget is not used up.
pub fn confirm_step(failures: usize, waited: u64, budget: u64) -> (r: Option<u64>)
    ensures
        r is Some <==> failures > 0 && waited < budget,
        r matches Some(next) ==> next == waited_on(waited),
{
    if failures > 0 && waited < budget {
        if waited > u64::MAX - CONFIRM_PAUSE {
            Some(u64::MAX)
        } else {
            Some(waited + CONFIRM_PAUSE)
        }
    } else {
        None
    }
}

/// What all switches came to.
#[derive(Clone, Debug)]
pub struct Report {
    pub worksets: usize,
    pub switches: usize,
    pub noops: usize,
    /// What was wrong at first and put itself right.
    pub transient: usize,
    pub failures: Vec<Failure>,
}

impl Report {
    pub fn new(worksets: usize) -> (r: Report)
        ensures
            r.worksets == worksets,
            r.switches == 0,
            r.noops == 0,
            r.transient == 0,
            r.failures@.len() == 0,
    {
        Report { worksets, switches: 0, noops: 0, transient: 0, failures: Vec::new() }
    }

    /// Counts a switch that placed nothing.
    pub fn note_noop(&mut self)
        ensures
            final(self).noops == counting::counted(old(self).noops + 1),
            final(self).worksets == old(self).worksets,
            final(self).switches == old(self).switches,
            final(self).transient == old(self).transient,
            final(self).failures == old(self).failures,
    {
        counting::bump(&mut self.noops);
    }

    /// Counts a switch after which `first` things were wrong at first and the given ones stayed
    /// wrong.
    pub fn note_switch(&mut self, first: usize, confirmed: Vec<Failure>)
        requires
            confirmed@.len() <= first,
        ensures
            final(self).switches == counting::counted(old(self).switches + 1),
            final(self).transient == counting::counted(
                old(self).transient + first - confirmed@.len(),
            ),
            final(self).failures@ == old(self).failures@ + confirmed@,
            final(self).worksets == old(self).worksets,
            final(self).noops == old(self).noops,
    {
        counting::bump(&mut self.switches);
        let settled: usize = first - confirmed.len();
        self.transient = if settled > usize::MAX - self.transient {
            usize::MAX
        } else {
            self.transient + settled
        };
        let mut more = confirmed;
        self.failures.append(&mut more);
    }

    /// The report as JSON.
    pub fn to_json(&self) -> (r: String)
        ensures
            r@ == report_json(
                self.worksets as nat,
                self.switches as nat,
                self.noops as nat,
                self.transient as nat,
                failures_view(self.failures@),
            ),
    {
        let mut out = text::owned("{\"worksets\":");
        append_number(&mut out, self.worksets);
        out.append(",\"switches\":");
        append_number(&mut out, self.switches);
        out.append(",\"noops\":");
        append_number(&mut out, self.noops);
        out.append(",\"transient\":");
        append_number(&mut out, self.transient);
        out.append(",\"failures\":[");
        let ghost head = out@;
        let ghost fv = failures_view(self.failures@);
        let mut i: usize = 0;
        assert(head + failures_json(fv.take(0)) =~= head);
        while i < self.failures.len()
            invariant
                i <= self.failures@.len(),
                fv == failures_view(self.failures@),
                out@ == head + failures_json(fv.take(i as int)),
            decreases self.failures@.len() - i,
        {
            proof {
                assert(fv.take(i + 1).drop_last() =~= fv.take(i as int));
                assert(fv.take(i + 1).last() == self.failures@[i as int]@);
            }
            let ghost before = out@;
            if i > 0 {
                out.append(",");
            }
            let f = &self.failures[i];
            out.append("{\"iter\":");
            append_number(&mut out, f.iter);
            out.append(",\"target\":");
            out.append(quoted(f.target.as_str()).as_str());
            out.append(",\"window\":");
            out.append(quoted(f.window.as_str()).as_str());
            out.append(",\"problem\":");
            out.append(quoted(f.problem.as_str()).as_str());
            out.append("}");
            assert(out@ =~= head + failures_json(fv.take(i + 1)));
            i += 1;
        }
        assert(fv.take(fv.len() as int) =~= fv);
        out.append("]}");
        out
    }
}

/// A text in quotes, with escapes, as `str`'s `Debug` writes it.
pub uninterp spec fn debug_text(s: Seq<char>) -> Seq<char>;

/// `str`'s `Debug`: the text in quotes, with escapes. Which characters are escaped, and how, is
/// left to the name `debug_text`.
#[verifier::external_body]
fn quoted(s: &str) -> (r: String)
    ensures
        r@ == debug_text(s@),
{
    format!("{s:?}")
}

fn append_number(out: &mut String, n: usize)
    ensures
        final(out)@ == old(out)@ + text::decimal(n as nat),
{
    let digits = text::decimal_text(n as u64);
    out.append(digits.as_str());
}

pub open spec fn failure_json(f: FailureView) -> Seq<char> {
    "{\"iter\":"@ + text::decimal(f.iter as nat) + ",\"target\":"@ + debug_text(f.target)
        + ",\"window\":"@ + debug_text(f.window) + ",\"problem\":"@ + debug_text(f.problem) + "}"@
}

pub open spec fn failures_json(failures: Seq<FailureView>) -> Seq<char>
    decreases failures.len(),
{
    if failures.len() == 0 {
        Seq::empty()
    } else if failures.len() == 1 {
        failure_json(failures[0])
    } else {
        failures_json(failures.drop_last()) + ","@ + failure_json(failures.last())
    }
}

pub open spec fn report_json(
    worksets: nat,
    switches: nat,
    noops: nat,
    transient: nat,
    failures: Seq<FailureView>,
) -> Seq<char> {
    "{\"worksets\":"@ + text::decimal(worksets) + ",\"switches\":"@ + text::decimal(switches)
        + ",\"noops\":"@ + text::decimal(noops) + ",\"transient\":"@ + text::decimal(transient)
        + ",\"failures\":["@ + failures_json(failures) + "]}"@
}

/// Failures of one window with one problem.
#[derive(Clone, Debug)]
pub struct FailureGroup {
    pub window: String,
    pub problem: String,
    pub count: usize,
    pub first_iter: usize,
}

pub open spec fn same_kind(f: FailureView, window: Seq<char>, problem: Seq<char>) -> bool {
    f.window == window && f.problem == problem
}

pub open spec fn count_kind(
    failures: Seq<FailureView>,
    window: Seq<char>,
    problem: Seq<char>,
) -> nat
    decreases failures.len(),
{
    if failures.len() == 0 {
        0
    } else {
        count_kind(failures.drop_last(), window, problem) + if same_kind(
            failures.last(),
            window,
            problem,
        ) {
            1nat
        } else {
            0nat
        }
    }
}

/// The first failure of each kind, in the order in which they came.
pub open spec fn kinds(failures: Seq<FailureView>, n: nat) -> Seq<usize>
    decreases n,
{
    if n == 0 {
        Seq::empty()
    } else {
        let before = kinds(failures, (n - 1) as nat);
        let f = failures[n - 1];
        if count_kind(failures.take(n - 1), f.window, f.problem) == 0 {
            before.push((n - 1) as usize)
        } else {
            before
        }
    }
}

/// The failures by window and problem.
pub open spec fn is_grouping(groups: Seq<FailureGroup>, failures: Seq<FailureView>) -> bool {
    let firsts = kinds(failures, failures.len());
    &&& groups.len() == firsts.len()
    &&& exists|o: Seq<usize>|
        {
            &&& #[trigger] is_kind_order(o, firsts, failures)
            &&& forall|k: int|
                0 <= k < groups.len() ==> {
                    let f = failures[firsts[o[k] as int] as int];
                    &&& (#[trigger] groups[k]).window@ == f.window
                    &&& groups[k].problem@ == f.problem
                    &&& groups[k].first_iter == f.iter
                    &&& groups[k].count == count_kind(failures, f.window, f.problem)
                }
        }
}

pub open spec fn kind_before(a: FailureView, b: FailureView) -> bool {
    order::text_precedes(a.window, b.window) || (a.window == b.window && order::text_precedes(
        a.problem,
        b.problem,
    ))
}

/// The kinds in ascending order of window and problem.
pub open spec fn is_kind_order(
    o: Seq<usize>,
    firsts: Seq<usize>,
    failures: Seq<FailureView>,
) -> bool {
    &&& o.len() == firsts.len()
    &&& forall|a: int| 0 <= a < o.len() ==> (#[trigger] o[a]) < firsts.len()
    &&& forall|a: int, b: int|
        0 <= a < b < o.len() ==> o[a] != o[b] && !kind_before(
            failures[firsts[#[trigger] o[b] as int] as int],
            failures[firsts[#[trigger] o[a] as int] as int],
        )
}

fn count_of_kind(failures: &Vec<Failure>, n: usize, window: &str, problem: &str) -> (r: usize)
    requires
        n <= failures@.len(),
    ensures
        r == count_kind(failures_view(failures@).take(n as int), window@, problem@),
{
    let ghost fv = failures_view(failures@);
    let mut count: usize = 0;
    let mut i: usize = 0;
    while i < n
        invariant
            i <= n <= failures@.len(),
            fv == failures_view(failures@),
            count <= i,
            count == count_kind(fv.take(i as int), window@, problem@),
        decreases n - i,
    {
        proof {
            assert(fv.take(i + 1).drop_last() =~= fv.take(i as int));
            assert(fv.take(i + 1).last() == failures@[i as int]@);
        }
        if text::same_text(failures[i].window.as_str(), window) && text::same_text(
            failures[i].problem.as_str(),
            problem,
        ) {
            count += 1;
        }
        i += 1;
    }
    count
}

/// The failures by window and problem, each kind with how often and when first it came.
pub fn group_failures(failures: &Vec<Failure>) -> (r: Vec<FailureGroup>)
    ensures
        is_grouping(r@, failures_view(failures@)),
{
    let ghost fv = failures_view(failures@);
    let n: usize = failures.len();
    let mut firsts: Vec<usize> = Vec::new();
    let mut keys: Vec<(String, String)> = Vec::new();
    let mut i: usize = 0;
    while i < n
        invariant
            i <= n == failures@.len(),
            fv == failures_view(failures@),
            firsts@ == kinds(fv, i as nat),
            keys@.len() == firsts@.len(),
            forall|k: int|
                0 <= k < firsts@.len() ==> (#[trigger] firsts@[k]) < i && keys@[k].0@
                    == fv[firsts@[k] as int].window && keys@[k].1@
                    == fv[firsts@[k] as int].problem,
        decreases n - i,
    {
        let f = &failures[i];
        assert(fv[i as int] == f@);
        if count_of_kind(failures, i, f.window.as_str(), f.problem.as_str()) == 0 {
            firsts.push(i);
            keys.push((f.window.clone(), f.problem.clone()));
        }
        i += 1;
    }
    let o = order::stable_order(&keys);
    proof {
        order::lemma_stable_order_distinct(o@, keys@);
        assert forall|a: int, b: int| 0 <= a < b < o@.len() implies o@[a] != o@[b] && !kind_before(
            fv[firsts@[#[trigger] o@[b] as int] as int],
            fv[firsts@[#[trigger] o@[a] as int] as int],
        ) by {
            let (x, y) = (o@[a] as int, o@[b] as int);
            assert(firsts@[x] < n && firsts@[y] < n);
            assert(order::stable_before(keys@, x, y));
            let (p, q) = (keys@[x], keys@[y]);
            if kind_before(fv[firsts@[y] as int], fv[firsts@[x] as int]) {
                if order::text_precedes(q.0@, p.0@) {
                    assert(q.0.precedes(p.0));
                    assert(q.precedes(p));
                } else {
                    order::lemma_text_irreflexive(p.0@);
                    assert(q.1.precedes(p.1));
                    assert(q.precedes(p));
                }
                order::lemma_stable_before_strict(keys@, x, y);
                if p.precedes(q) {
                    Ranked::transitive(p, q, p);
                    Ranked::irreflexive(p);
                }
            }
        }
    }
    assert(is_kind_order(o@, firsts@, fv));
    let mut out: Vec<FailureGroup> = Vec::new();
    let mut k: usize = 0;
    assert(fv.take(fv.len() as int) =~= fv);
    while k < o.len()
        invariant
            k <= o@.len(),
            n == failures@.len(),
            fv == failures_view(failures@),
            fv.take(n as int) == fv,
            o@.len() == firsts@.len(),
            forall|a: int| 0 <= a < o@.len() ==> (#[trigger] o@[a]) < firsts@.len(),
            forall|a: int| 0 <= a < firsts@.len() ==> (#[trigger] firsts@[a]) < n,
            out@.len() == k,
            forall|j: int|
                0 <= j < k ==> {
                    let f = fv[firsts@[o@[j] as int] as int];
                    &&& (#[trigger] out@[j]).window@ == f.window
                    &&& out@[j].problem@ == f.problem
                    &&& out@[j].first_iter == f.iter
                    &&& out@[j].count == count_kind(fv, f.window, f.problem)
                },
        decreases o@.len() - k,
    {
        let at: usize = firsts[o[k]];
        let f = &failures[at];
        assert(fv[at as int] == f@);
        let count: usize = count_of_kind(failures, n, f.window.as_str(), f.problem.as_str());
        out.push(
            FailureGroup {
                window: f.window.clone(),
                problem: f.problem.clone(),
                count,
                first_iter: f.iter,
            },
        );
        k += 1;
    }
    out
}

/// The area that two rectangles share does not depend on which is named first; it is nothing where
/// they do not meet and something where they do, and a rectangle shares all of itself with one that
/// encloses it.
pub proof fn law_shared_area(a: PixelRect, b: PixelRect)
    requires
        a.width >= 0,
        a.height >= 0,
        b.width >= 0,
        b.height >= 0,
    ensures
        shared_area(a, b) == shared_area(b, a),
        !a.meets(b) ==> shared_area(a, b) == 0,
        a.meets(b) && a.area() > 0 && b.area() > 0 ==> shared_area(a, b) > 0,
        b.encloses(a) ==> shared_area(a, b) == a.width * a.height,
        shared_area(a, b) <= a.width * a.height,
{
    let x = shared_length(a.x as int, a.width as int, b.x as int, b.width as int);
    let y = shared_length(a.y as int, a.height as int, b.y as int, b.height as int);
    assert(x == 0 || y == 0 ==> x * y == 0) by (nonlinear_arith);
    assert(x > 0 && y > 0 ==> x * y > 0) by (nonlinear_arith);
    assert(a.area() > 0 ==> a.width > 0 && a.height > 0) by (nonlinear_arith)
        requires
            a.area() == a.width * a.height,
            a.width >= 0,
            a.height >= 0,
    ;
    assert(b.area() > 0 ==> b.width > 0 && b.height > 0) by (nonlinear_arith)
        requires
            b.area() == b.width * b.height,
            b.width >= 0,
            b.height >= 0,
    ;
    assert(0 <= x <= a.width && 0 <= y <= a.height);
    assert(x * y <= a.width * a.height) by (nonlinear_arith)
        requires
            0 <= x <= a.width,
            0 <= y <= a.height,
    ;
}

proof fn lemma_seen_at(windows: Seq<SeenWindow>, k: int)
    requires
        0 <= k < windows.len(),
        forall|a: int, b: int|
            0 <= a < b < windows.len() ==> (#[trigger] windows[a]).hwnd != (
            #[trigger] windows[b]).hwnd,
    ensures
        seen_at(windows, windows[k].hwnd) == Some(windows[k]),
    decreases windows.len(),
{
    let rest = windows.drop_last();
    if k < rest.len() {
        assert(forall|j: int| 0 <= j < rest.len() ==> #[trigger] rest[j] == windows[j]);
        assert(windows[k].hwnd != windows[windows.len() - 1].hwnd);
        lemma_seen_at(rest, k);
    }
}

proof fn lemma_nothing_misplaced(
    iter: usize,
    target: Seq<char>,
    main_ids: Seq<String>,
    monitors: Seq<MonitorInfo>,
    intents: Seq<(isize, Intent)>,
    windows: Seq<SeenWindow>,
)
    ensures
        misplaced(iter, target, main_ids, monitors, intents, windows).len() == 0 <==> forall|i: int|
            0 <= i < intents.len() ==> (seen_at(windows, (#[trigger] intents[i]).0) matches Some(w)
                ==> judged(intents[i].1, w, main_ids, monitors) is None),
    decreases intents.len(),
{
    if intents.len() > 0 {
        let rest = intents.drop_last();
        lemma_nothing_misplaced(iter, target, main_ids, monitors, rest, windows);
        assert(forall|i: int| 0 <= i < rest.len() ==> #[trigger] rest[i] == intents[i]);
        assert(intents.last() == intents[intents.len() - 1]);
        if misplaced(iter, target, main_ids, monitors, intents, windows).len() == 0 {
            assert forall|i: int| 0 <= i < intents.len() implies (seen_at(
                windows,
                (#[trigger] intents[i]).0,
            ) matches Some(w) ==> judged(intents[i].1, w, main_ids, monitors) is None) by {
                if i < rest.len() {
                    assert(rest[i] == intents[i]);
                }
            }
        }
    }
}

proof fn lemma_nothing_left_over(
    iter: usize,
    target: Seq<char>,
    intents: Seq<(isize, Intent)>,
    windows: Seq<SeenWindow>,
)
    ensures
        left_over(iter, target, intents, windows).len() == 0 <==> forall|k: int|
            0 <= k < windows.len() ==> is_meant(intents, (#[trigger] windows[k]).hwnd)
                || windows[k].minimized,
    decreases windows.len(),
{
    if windows.len() > 0 {
        let rest = windows.drop_last();
        lemma_nothing_left_over(iter, target, intents, rest);
        assert(forall|i: int| 0 <= i < rest.len() ==> #[trigger] rest[i] == windows[i]);
        assert(windows.last() == windows[windows.len() - 1]);
        if left_over(iter, target, intents, windows).len() == 0 {
            assert forall|k: int| 0 <= k < windows.len() implies is_meant(
                intents,
                (#[trigger] windows[k]).hwnd,
            ) || windows[k].minimized by {
                if k < rest.len() {
                    assert(rest[k] == windows[k]);
                }
            }
        }
    }
}

/// The two share no more than a little.
#[verifier::opaque]
spec fn little_shared(a: PixelRect, b: PixelRect) -> bool {
    shared_area(a, b) <= 4000
}

/// None of these shares more than a little with another.
spec fn apart_enough(seen: Seq<(Seq<char>, PixelRect)>) -> bool {
    forall|i: int, j: int|
        0 <= i < j < seen.len() ==> little_shared((#[trigger] seen[i]).1, (#[trigger] seen[j]).1)
}

proof fn lemma_no_clash_with(
    iter: usize,
    target: Seq<char>,
    seen: Seq<(Seq<char>, PixelRect)>,
    i: int,
    j: int,
)
    requires
        0 <= i,
        j <= seen.len(),
    ensures
        clashes_with(iter, target, seen, i, j).len() == 0 <==> forall|b: int|
            i < b < j ==> shared_area(seen[i].1, (#[trigger] seen[b]).1) <= 4000,
    decreases j,
{
    if j > i + 1 {
        lemma_no_clash_with(iter, target, seen, i, j - 1);
        if clashes_with(iter, target, seen, i, j).len() == 0 {
            assert forall|b: int| i < b < j implies shared_area(seen[i].1, (#[trigger] seen[b]).1)
                <= 4000 by {}
        }
    }
}

proof fn lemma_no_clashes(
    iter: usize,
    target: Seq<char>,
    seen: Seq<(Seq<char>, PixelRect)>,
    n: nat,
)
    requires
        n <= seen.len(),
    ensures
        clashes(iter, target, seen, n).len() == 0 <==> forall|a: int, b: int|
            0 <= a < n && a < b < seen.len() ==> shared_area(
                (#[trigger] seen[a]).1,
                (#[trigger] seen[b]).1,
            ) <= 4000,
    decreases n,
{
    if n > 0 {
        lemma_no_clashes(iter, target, seen, (n - 1) as nat);
        lemma_no_clash_with(iter, target, seen, n - 1, seen.len() as int);
    }
}

spec fn shows_some(w: SeenWindow) -> bool {
    !w.minimized && w.visible is Some
}

/// What counts of a window in sight.
#[verifier::opaque]
spec fn counted_part(w: SeenWindow) -> PixelRect {
    eroded(w.visible->0, 20)
}

/// No two windows in sight share more than a little.
spec fn windows_apart(windows: Seq<SeenWindow>) -> bool {
    forall|a: int, b: int|
        0 <= a < b < windows.len() && shows_some(#[trigger] windows[a]) && shows_some(
            #[trigger] windows[b],
        ) ==> little_shared(counted_part(windows[a]), counted_part(windows[b]))
}

proof fn lemma_in_sight_step(windows: Seq<SeenWindow>)
    requires
        windows.len() > 0,
    ensures
        shows_some(windows.last()) ==> in_sight(windows) == in_sight(windows.drop_last()).push(
            (windows.last().title@, counted_part(windows.last())),
        ),
        !shows_some(windows.last()) ==> in_sight(windows) == in_sight(windows.drop_last()),
{
    reveal(counted_part);
}

/// The window that an entry comes from.
proof fn lemma_entry_of(windows: Seq<SeenWindow>, i: int) -> (k: int)
    requires
        0 <= i < in_sight(windows).len(),
    ensures
        0 <= k < windows.len(),
        shows_some(windows[k]),
        in_sight(windows)[i].1 == counted_part(windows[k]),
    decreases windows.len(),
{
    let rest = windows.drop_last();
    lemma_in_sight_step(windows);
    if i < in_sight(rest).len() {
        lemma_entry_of(rest, i)
    } else {
        windows.len() - 1
    }
}

/// The entry of a window.
proof fn lemma_entry_for(windows: Seq<SeenWindow>, k: int) -> (i: int)
    requires
        0 <= k < windows.len(),
        shows_some(windows[k]),
    ensures
        0 <= i < in_sight(windows).len(),
        in_sight(windows)[i].1 == counted_part(windows[k]),
    decreases windows.len(),
{
    let rest = windows.drop_last();
    lemma_in_sight_step(windows);
    if k < rest.len() {
        lemma_entry_for(rest, k)
    } else {
        in_sight(rest).len() as int
    }
}

proof fn lemma_apart_in_sight(windows: Seq<SeenWindow>)
    requires
        windows_apart(windows),
    ensures
        apart_enough(in_sight(windows)),
    decreases windows.len(),
{
    if windows.len() > 0 {
        let rest = windows.drop_last();
        let before = in_sight(rest);
        let now = in_sight(windows);
        let n = windows.len() - 1;
        assert(windows_apart(rest)) by {
            assert forall|a: int, b: int|
                0 <= a < b < rest.len() && shows_some(#[trigger] rest[a]) && shows_some(
                    #[trigger] rest[b],
                ) implies little_shared(counted_part(rest[a]), counted_part(rest[b])) by {
                assert(rest[a] == windows[a] && rest[b] == windows[b]);
            }
        }
        lemma_apart_in_sight(rest);
        lemma_in_sight_step(windows);
        assert forall|i: int, j: int| 0 <= i < j < now.len() implies little_shared(
            (#[trigger] now[i]).1,
            (#[trigger] now[j]).1,
        ) by {
            assert(now[i] == before[i]);
            if j < before.len() {
                assert(now[j] == before[j]);
            } else {
                let k = lemma_entry_of(rest, i);
                assert(rest[k] == windows[k]);
                assert(shows_some(windows[n]));
            }
        }
    }
}

proof fn lemma_apart_in_fact(windows: Seq<SeenWindow>)
    requires
        apart_enough(in_sight(windows)),
    ensures
        windows_apart(windows),
    decreases windows.len(),
{
    if windows.len() > 0 {
        let rest = windows.drop_last();
        let before = in_sight(rest);
        let now = in_sight(windows);
        lemma_in_sight_step(windows);
        assert(apart_enough(before)) by {
            assert forall|i: int, j: int| 0 <= i < j < before.len() implies little_shared(
                (#[trigger] before[i]).1,
                (#[trigger] before[j]).1,
            ) by {
                assert(now[i] == before[i] && now[j] == before[j]);
            }
        }
        lemma_apart_in_fact(rest);
        assert forall|a: int, b: int|
            0 <= a < b < windows.len() && shows_some(#[trigger] windows[a]) && shows_some(
                #[trigger] windows[b],
            ) implies little_shared(counted_part(windows[a]), counted_part(windows[b])) by {
            assert(rest[a] == windows[a]);
            if b < rest.len() {
                assert(rest[b] == windows[b]);
            } else {
                let i = lemma_entry_for(rest, a);
                assert(now[i] == before[i]);
                assert(now[before.len() as int].1 == counted_part(windows[b]));
            }
        }
    }
}

proof fn lemma_apart(windows: Seq<SeenWindow>)
    ensures
        apart_enough(in_sight(windows)) <==> forall|a: int, b: int|
            0 <= a < b < windows.len() && !(#[trigger] windows[a]).minimized
                && !(#[trigger] windows[b]).minimized && windows[a].visible is Some
                && windows[b].visible is Some ==> shared_area(
                eroded(windows[a].visible->0, 20),
                eroded(windows[b].visible->0, 20),
            ) <= 4000,
{
    reveal(little_shared);
    reveal(counted_part);
    if apart_enough(in_sight(windows)) {
        lemma_apart_in_fact(windows);
        assert forall|a: int, b: int|
            0 <= a < b < windows.len() && !(#[trigger] windows[a]).minimized
                && !(#[trigger] windows[b]).minimized && windows[a].visible is Some
                && windows[b].visible is Some implies shared_area(
            eroded(windows[a].visible->0, 20),
            eroded(windows[b].visible->0, 20),
        ) <= 4000 by {
            assert(shows_some(windows[a]) && shows_some(windows[b]));
        }
    }
    if forall|a: int, b: int|
        0 <= a < b < windows.len() && !(#[trigger] windows[a]).minimized
            && !(#[trigger] windows[b]).minimized && windows[a].visible is Some
            && windows[b].visible is Some ==> shared_area(
            eroded(windows[a].visible->0, 20),
            eroded(windows[b].visible->0, 20),
        ) <= 4000 {
        assert(windows_apart(windows)) by {
            assert forall|a: int, b: int|
                0 <= a < b < windows.len() && shows_some(#[trigger] windows[a]) && shows_some(
                    #[trigger] windows[b],
                ) implies little_shared(counted_part(windows[a]), counted_part(windows[b])) by {
                assert(!windows[a].minimized && !windows[b].minimized);
            }
        }
        lemma_apart_in_sight(windows);
    }
}

/// What is asked of a window that was meant to be somewhere.
pub open spec fn is_as_meant(
    intent: Intent,
    w: SeenWindow,
    main_ids: Seq<String>,
    monitors: Seq<MonitorInfo>,
) -> bool {
    match intent {
        Intent::Minimize => w.minimized,
        Intent::Fill(cell) => w.visible matches Some(vis) ==> {
            &&& -30 <= vis.x - cell.x <= 30
            &&& -30 <= vis.y - cell.y <= 30
            &&& -60 <= vis.width - cell.width <= 60
            &&& -60 <= vis.height - cell.height <= 60
        },
        Intent::Main(rect) => forall|i: int|
            0 <= i < monitors.len() && (#[trigger] monitors[i]).bounds_px.covers(
                rect.mid_x(),
                rect.mid_y(),
            ) && (forall|j: int|
                0 <= j < i ==> !(#[trigger] monitors[j]).bounds_px.covers(
                    rect.mid_x(),
                    rect.mid_y(),
                )) ==> (w.visible matches Some(vis) ==> {
                let area = monitors[i].work_area_px;
                let bounds = monitors[i].bounds_px;
                &&& exists|n: int|
                    0 <= n < main_ids.len() && (#[trigger] main_ids[n])@
                        == monitors[i].device_name@
                &&& {
                    ||| area.width * area.height > 0 && 20 * shared_area(vis, area) > 17 * (
                    area.width * area.height)
                    ||| -40 < vis.width - bounds.width < 40 && -60 < vis.height - bounds.height < 60
                }
            }),
    }
}

proof fn lemma_judged(
    intent: Intent,
    w: SeenWindow,
    main_ids: Seq<String>,
    monitors: Seq<MonitorInfo>,
)
    ensures
        judged(intent, w, main_ids, monitors) is None <==> is_as_meant(
            intent,
            w,
            main_ids,
            monitors,
        ),
{
    if let Intent::Main(rect) = intent {
        let test = center_test(monitors, rect.mid_x(), rect.mid_y());
        order::lemma_first_where(monitors.len(), test);
        match order::first_where(monitors.len(), test) {
            Some(i) => {
                assert forall|j: int| 0 <= j < i implies !(#[trigger] monitors[j]).bounds_px.covers(
                    rect.mid_x(),
                    rect.mid_y(),
                ) by {
                    assert(!test(j));
                }
                assert(test(i));
                assert(monitors[i].bounds_px.covers(rect.mid_x(), rect.mid_y()));
                assert forall|k: int|
                    0 <= k < monitors.len() && (#[trigger] monitors[k]).bounds_px.covers(
                        rect.mid_x(),
                        rect.mid_y(),
                    ) && (forall|j: int|
                        0 <= j < k ==> !(#[trigger] monitors[j]).bounds_px.covers(
                            rect.mid_x(),
                            rect.mid_y(),
                        )) implies k == i by {
                    if i < k {
                        assert(!monitors[i].bounds_px.covers(rect.mid_x(), rect.mid_y()));
                    }
                }
            },
            None => {
                assert forall|k: int| 0 <= k < monitors.len() implies !(
                #[trigger] monitors[k]).bounds_px.covers(rect.mid_x(), rect.mid_y()) by {
                    assert(!test(k));
                }
            },
        }
    }
}

/// After a switch there is nothing to complain of exactly where every window that was meant to be
/// somewhere is there, every window in sight was meant to be somewhere, and no two windows in sight
/// share more than 4000 pixels once 20 pixels are taken off on every side.
pub proof fn law_nothing_is_wrong_only_where_all_is_well(
    iter: usize,
    target: Seq<char>,
    main_ids: Seq<String>,
    monitors: Seq<MonitorInfo>,
    intents: Seq<(isize, Intent)>,
    windows: Seq<SeenWindow>,
)
    requires
        forall|a: int, b: int|
            0 <= a < b < windows.len() ==> (#[trigger] windows[a]).hwnd != (
            #[trigger] windows[b]).hwnd,
    ensures
        all_failures(iter, target, main_ids, monitors, intents, windows).len() == 0 <==> {
            &&& forall|i: int, k: int|
                0 <= i < intents.len() && 0 <= k < windows.len() && (#[trigger] intents[i]).0 == (
                #[trigger] windows[k]).hwnd ==> is_as_meant(
                    intents[i].1,
                    windows[k],
                    main_ids,
                    monitors,
                )
            &&& forall|k: int|
                0 <= k < windows.len() && !(#[trigger] windows[k]).minimized ==> exists|i: int|
                    0 <= i < intents.len() && (#[trigger] intents[i]).0 == windows[k].hwnd
            &&& forall|a: int, b: int|
                0 <= a < b < windows.len() && !(#[trigger] windows[a]).minimized
                    && !(#[trigger] windows[b]).minimized && windows[a].visible is Some
                    && windows[b].visible is Some ==> shared_area(
                    eroded(windows[a].visible->0, 20),
                    eroded(windows[b].visible->0, 20),
                ) <= 4000
        },
{
    let seen = in_sight(windows);
    lemma_nothing_misplaced(iter, target, main_ids, monitors, intents, windows);
    lemma_nothing_left_over(iter, target, intents, windows);
    lemma_no_clashes(iter, target, seen, seen.len());
    lemma_apart(windows);
    assert(clashes(iter, target, seen, seen.len()).len() == 0 <==> apart_enough(seen)) by {
        reveal(little_shared);
        if apart_enough(seen) {
            assert forall|a: int, b: int|
                0 <= a < seen.len() && a < b < seen.len() implies shared_area(
                (#[trigger] seen[a]).1,
                (#[trigger] seen[b]).1,
            ) <= 4000 by {
                assert(little_shared(seen[a].1, seen[b].1));
            }
        }
    }
    let wrong = misplaced(iter, target, main_ids, monitors, intents, windows);
    assert(wrong.len() == 0 <==> forall|i: int, k: int|
        0 <= i < intents.len() && 0 <= k < windows.len() && (#[trigger] intents[i]).0 == (
        #[trigger] windows[k]).hwnd ==> is_as_meant(
            intents[i].1,
            windows[k],
            main_ids,
            monitors,
        )) by {
        if wrong.len() == 0 {
            assert forall|i: int, k: int|
                0 <= i < intents.len() && 0 <= k < windows.len() && (#[trigger] intents[i]).0 == (
                #[trigger] windows[k]).hwnd implies is_as_meant(
                intents[i].1,
                windows[k],
                main_ids,
                monitors,
            ) by {
                lemma_seen_at(windows, k);
                lemma_judged(intents[i].1, windows[k], main_ids, monitors);
            }
        }
        if forall|i: int, k: int|
            0 <= i < intents.len() && 0 <= k < windows.len() && (#[trigger] intents[i]).0 == (
            #[trigger] windows[k]).hwnd ==> is_as_meant(
                intents[i].1,
                windows[k],
                main_ids,
                monitors,
            ) {
            assert forall|i: int| 0 <= i < intents.len() implies (seen_at(
                windows,
                (#[trigger] intents[i]).0,
            ) matches Some(w) ==> judged(intents[i].1, w, main_ids, monitors) is None) by {
                if let Some(w) = seen_at(windows, intents[i].0) {
                    let k = lemma_seen_where(windows, intents[i].0);
                    assert(windows[k].hwnd == intents[i].0);
                    lemma_judged(intents[i].1, windows[k], main_ids, monitors);
                }
            }
        }
    }
}

proof fn lemma_seen_where(windows: Seq<SeenWindow>, hwnd: isize) -> (k: int)
    requires
        seen_at(windows, hwnd) is Some,
    ensures
        0 <= k < windows.len(),
        seen_at(windows, hwnd) == Some(windows[k]),
        windows[k].hwnd == hwnd,
    decreases windows.len(),
{
    if windows.last().hwnd == hwnd {
        windows.len() - 1
    } else {
        lemma_seen_where(windows.drop_last(), hwnd)
    }
}

} // verus!
