//! Bringing every registered window back onto the main screen, whatever set it belongs to.

use vstd::prelude::*;

use crate::application::effects;
use crate::application::effects::Shown;
use crate::application::monitor_resolution;
use crate::application::parking_allocator;
use crate::application::window_ops::{Recorder, WindowCall, WindowOps};
use crate::application::workset_service;
use crate::domain::monitor::MonitorInfo;
use crate::domain::placement;
use crate::domain::placement::{PixelRect, SavedShowState};
use crate::domain::workset::Workset;
use crate::ids::Uuid;
use crate::order;
use crate::text;
use crate::windowing::enumerate::TopLevelWindow;
use crate::windowing::matcher::{MatchView, WindowMatching};

verus! {

/// What became of one window.
#[derive(Clone, Debug)]
pub struct RecoveredWindow {
    pub managed_window_id: Uuid,
    pub hwnd: isize,
    pub placed_rect: Option<PixelRect>,
    pub skip_reason: Option<String>,
}

/// A [`RecoveredWindow`] as a mathematical value.
pub struct RecoveredView {
    pub id: Uuid,
    pub hwnd: isize,
    pub placed: Option<PixelRect>,
    pub reason: Option<Seq<char>>,
}

impl View for RecoveredWindow {
    type V = RecoveredView;

    open spec fn view(&self) -> RecoveredView {
        RecoveredView {
            id: self.managed_window_id,
            hwnd: self.hwnd,
            placed: self.placed_rect,
            reason: match self.skip_reason {
                Some(s) => Some(s@),
                None => None,
            },
        }
    }
}

#[derive(Debug)]
pub struct RecoveryReport {
    pub recovered: Vec<RecoveredWindow>,
    pub skipped: Vec<RecoveredWindow>,
}

pub open spec fn report_view(s: Seq<RecoveredWindow>) -> Seq<RecoveredView> {
    Seq::new(s.len(), |i: int| s[i]@)
}

/// How many columns and rows `count` tiles take: one row up to four, two rows beyond.
pub open spec fn tile_columns(count: int) -> int {
    if count <= 4 {
        count
    } else {
        (count + 1) / 2
    }
}

pub open spec fn tile_rows(count: int) -> int {
    if count <= 4 {
        1
    } else {
        2
    }
}

pub open spec fn tile(count: int, area: PixelRect, i: int) -> PixelRect {
    let cols = tile_columns(count);
    let w = placement::quotient(area.width as int, cols);
    let h = placement::quotient(area.height as int, tile_rows(count));
    PixelRect {
        x: (area.x + (i % cols) * w) as i32,
        y: (area.y + (i / cols) * h) as i32,
        width: w as i32,
        height: h as i32,
    }
}

pub open spec fn tiles_for(count: nat, area: PixelRect) -> Seq<PixelRect> {
    Seq::new(count, |i: int| tile(count as int, area, i))
}

/// A part of a length, cut into `n` equal pieces, stays within it.
proof fn lemma_steps(length: int, n: int, k: int)
    requires
        1 <= n,
        0 <= k < n,
    ensures
        ({
            let w = placement::quotient(length, n);
            &&& length >= 0 ==> 0 <= w <= length && 0 <= k * w && k * w + w <= length
            &&& length < 0 ==> length <= w <= 0 && length <= k * w + w && k * w <= 0
        }),
{
    let m = if length >= 0 {
        length
    } else {
        -length
    };
    let q = m / n;
    assert(0 <= q && q <= m && 0 <= k * q && k * q + q <= m) by (nonlinear_arith)
        requires
            1 <= n,
            0 <= k < n,
            m >= 0,
            q == m / n,
    ;
    if length < 0 {
        let w = placement::quotient(length, n);
        assert(w == -q);
        assert(k * w == -(k * q)) by (nonlinear_arith)
            requires
                w == -q,
        ;
    }
}

/// Tiles for `count` windows over a work area: a single row up to four, two rows beyond.
pub fn plan_recovery_tiles(count: usize, work_area: PixelRect) -> (r: Vec<PixelRect>)
    requires
        work_area.fits(),
        count <= i32::MAX,
    ensures
        r@ == tiles_for(count as nat, work_area),
{
    let mut out: Vec<PixelRect> = Vec::new();
    if count == 0 {
        assert(out@ =~= tiles_for(0, work_area));
        return out;
    }
    let n: i32 = count as i32;
    let cols: i32 = if n <= 4 {
        n
    } else {
        n / 2 + n % 2
    };
    let rows: i32 = if n <= 4 {
        1
    } else {
        2
    };
    assert(cols == tile_columns(count as int));
    let cell_w: i32 = work_area.width / cols;
    let cell_h: i32 = work_area.height / rows;
    let mut i: i32 = 0;
    while i < n
        invariant
            work_area.fits(),
            0 <= i <= n,
            n == count,
            1 <= cols,
            cols == tile_columns(count as int),
            rows == tile_rows(count as int),
            cols * rows >= n,
            cell_w == placement::quotient(work_area.width as int, cols as int),
            cell_h == placement::quotient(work_area.height as int, rows as int),
            out@ == tiles_for(count as nat, work_area).take(i as int),
        decreases n - i,
    {
        let col: i32 = i % cols;
        let row: i32 = i / cols;
        assert(0 <= col < cols && 0 <= row < rows && col == (i as int) % (cols as int) && row == (
        i as int) / (cols as int)) by (nonlinear_arith)
            requires
                0 <= i < cols * rows,
                1 <= cols,
                1 <= rows,
                col == i % cols,
                row == i / cols,
        ;
        proof {
            lemma_steps(work_area.width as int, cols as int, col as int);
            lemma_steps(work_area.height as int, rows as int, row as int);
        }
        let dx: i32 = col * cell_w;
        let dy: i32 = row * cell_h;
        out.push(PixelRect::new(work_area.x + dx, work_area.y + dy, cell_w, cell_h));
        proof {
            assert(out@ =~= tiles_for(count as nat, work_area).take(i + 1));
        }
        i += 1;
    }
    assert(out@ =~= tiles_for(count as nat, work_area));
    out
}

/// Every tile lies inside the work area, and no two overlap.
pub proof fn law_tiles_stay_inside_and_apart(count: nat, area: PixelRect, i: int, j: int)
    requires
        area.fits(),
        area.width >= 0,
        area.height >= 0,
        0 <= i < count,
        0 <= j < count,
        i != j,
    ensures
        area.encloses(tiles_for(count, area)[i]),
        !tiles_for(count, area)[i].meets(tiles_for(count, area)[j]),
{
    let cols = tile_columns(count as int);
    let rows = tile_rows(count as int);
    lemma_tile_position(count as int, i);
    lemma_tile_position(count as int, j);
    let (ci, ri, cj, rj) = (i % cols, i / cols, j % cols, j / cols);
    lemma_steps(area.width as int, cols, ci);
    lemma_steps(area.height as int, rows, ri);
    lemma_steps(area.width as int, cols, cj);
    lemma_steps(area.height as int, rows, rj);
    let w = placement::quotient(area.width as int, cols);
    let h = placement::quotient(area.height as int, rows);
    if ci == cj {
        assert(ri != rj) by (nonlinear_arith)
            requires
                i == ri * cols + ci,
                j == rj * cols + cj,
                ci == cj,
                i != j,
        ;
        lemma_apart(h, ri, rj);
    } else {
        lemma_apart(w, ci, cj);
    }
}

proof fn lemma_tile_position(count: int, i: int)
    requires
        0 <= i < count,
    ensures
        ({
            let cols = tile_columns(count);
            &&& 1 <= cols
            &&& 0 <= i % cols < cols
            &&& 0 <= i / cols < tile_rows(count)
            &&& i == (i / cols) * cols + i % cols
        }),
{
    let cols = tile_columns(count);
    let rows = tile_rows(count);
    assert(cols * rows >= count);
    assert(0 <= i % cols < cols && 0 <= i / cols < rows && i == (i / cols) * cols + i % cols)
        by (nonlinear_arith)
        requires
            1 <= cols,
            1 <= rows,
            0 <= i < cols * rows,
    ;
}

proof fn lemma_apart(step: int, a: int, b: int)
    requires
        step >= 0,
        a != b,
    ensures
        a < b ==> a * step + step <= b * step,
        b < a ==> b * step + step <= a * step,
{
    if a < b {
        assert(a * step + step <= b * step) by (nonlinear_arith)
            requires
                step >= 0,
                a < b,
        ;
    } else {
        assert(b * step + step <= a * step) by (nonlinear_arith)
            requires
                step >= 0,
                b < a,
        ;
    }
}

// ---------------------------------------------------------------------------
// Recovering all windows
// ---------------------------------------------------------------------------

/// A window that was found again.
pub struct Found {
    pub id: Uuid,
    pub hwnd: isize,
    pub set_order: i32,
    pub z_order: i32,
}

/// The windows of the first `n` windows of one set that were found again.
pub open spec fn found_in_set(w: Workset, decisions: Map<Uuid, MatchView>, n: nat) -> Seq<Found>
    decreases n,
{
    if n == 0 {
        Seq::empty()
    } else {
        let before = found_in_set(w, decisions, (n - 1) as nat);
        let m = w.windows@[n - 1];
        match workset_service::handle_of(decisions, m.id) {
            Some(hwnd) => before.push(
                Found { id: m.id, hwnd, set_order: w.sort_order, z_order: m.z_order },
            ),
            None => before,
        }
    }
}

/// The windows of the first `n` sets that were found again.
pub open spec fn found_windows(
    worksets: Seq<Workset>,
    decisions: Map<Uuid, MatchView>,
    n: nat,
) -> Seq<Found>
    decreases n,
{
    if n == 0 {
        Seq::empty()
    } else {
        found_windows(worksets, decisions, (n - 1) as nat) + found_in_set(
            worksets[n - 1],
            decisions,
            worksets[n - 1].windows@.len(),
        )
    }
}

pub open spec fn lost_view(id: Uuid) -> RecoveredView {
    RecoveredView {
        id,
        hwnd: 0,
        placed: None,
        reason: Some("window could not be re-resolved"@),
    }
}

pub open spec fn lost_in_set(
    w: Workset,
    decisions: Map<Uuid, MatchView>,
    n: nat,
) -> Seq<RecoveredView>
    decreases n,
{
    if n == 0 {
        Seq::empty()
    } else {
        let before = lost_in_set(w, decisions, (n - 1) as nat);
        let m = w.windows@[n - 1];
        match workset_service::handle_of(decisions, m.id) {
            Some(_) => before,
            None => before.push(lost_view(m.id)),
        }
    }
}

/// The windows of the first `n` sets that were not found again.
pub open spec fn lost_windows(
    worksets: Seq<Workset>,
    decisions: Map<Uuid, MatchView>,
    n: nat,
) -> Seq<RecoveredView>
    decreases n,
{
    if n == 0 {
        Seq::empty()
    } else {
        lost_windows(worksets, decisions, (n - 1) as nat) + lost_in_set(
            worksets[n - 1],
            decisions,
            worksets[n - 1].windows@.len(),
        )
    }
}

pub open spec fn found_keys(found: Seq<Found>) -> Seq<(i32, (i32, isize))> {
    Seq::new(found.len(), |i: int| (found[i].set_order, (found[i].z_order, found[i].hwnd)))
}

/// `sorted` holds the found windows in tiling order: by set, by z-order, by handle.
pub open spec fn in_tiling_order(sorted: Seq<Found>, found: Seq<Found>) -> bool {
    exists|o: Seq<usize>| #[trigger]
        order::is_stable_order(o, found_keys(found)) && sorted == order::picked(found, o)
}

pub open spec fn restore_calls(found: Seq<Found>) -> Seq<WindowCall> {
    Seq::new(found.len(), |i: int| WindowCall::Restore { hwnd: found[i].hwnd })
}

pub open spec fn tile_moves(found: Seq<Found>, area: PixelRect) -> Seq<(isize, PixelRect)> {
    Seq::new(found.len(), |i: int| (found[i].hwnd, tile(found.len() as int, area, i)))
}

pub open spec fn skipped_because(found: Seq<Found>, reason: Seq<char>) -> Seq<RecoveredView> {
    Seq::new(
        found.len(),
        |i: int|
            RecoveredView {
                id: found[i].id,
                hwnd: found[i].hwnd,
                placed: None,
                reason: Some(reason),
            },
    )
}

pub open spec fn tiled(found: Seq<Found>, area: PixelRect) -> Seq<RecoveredView> {
    Seq::new(
        found.len(),
        |i: int|
            RecoveredView {
                id: found[i].id,
                hwnd: found[i].hwnd,
                placed: Some(tile(found.len() as int, area, i)),
                reason: None,
            },
    )
}

/// What a recovery does and reports, given the windows found again in tiling order, and whether
/// the batch of moves went through.
pub open spec fn is_recovery(
    calls: Seq<WindowCall>,
    recovered: Seq<RecoveredView>,
    skipped: Seq<RecoveredView>,
    sorted: Seq<Found>,
    lost: Seq<RecoveredView>,
    home: Option<MonitorInfo>,
) -> bool {
    match home {
        None => {
            &&& calls == Seq::<WindowCall>::empty()
            &&& recovered == Seq::<RecoveredView>::empty()
            &&& skipped == lost + skipped_because(sorted, "no live main monitor"@)
        },
        Some(m) => exists|done: bool|
            {
                &&& calls == restore_calls(sorted).push(
                    #[trigger] batch(sorted, m.work_area_px, done),
                )
                &&& done ==> recovered == tiled(sorted, m.work_area_px) && skipped == lost
                &&& !done ==> recovered == Seq::<RecoveredView>::empty() && skipped == lost
                    + skipped_because(sorted, "batch move failed"@)
            },
    }
}

pub open spec fn batch(sorted: Seq<Found>, area: PixelRect, done: bool) -> WindowCall {
    WindowCall::BatchMove { moves: tile_moves(sorted, area), done }
}

proof fn lemma_report_push(s: Seq<RecoveredWindow>, w: RecoveredWindow)
    ensures
        report_view(s.push(w)) == report_view(s).push(w@),
{
    assert(report_view(s.push(w)) =~= report_view(s).push(w@));
}

/// One window found again, in executable form.
struct Candidate {
    id: Uuid,
    hwnd: isize,
    set_order: i32,
    z_order: i32,
}

spec fn candidates_view(s: Seq<Candidate>) -> Seq<Found> {
    Seq::new(
        s.len(),
        |i: int|
            Found {
                id: s[i].id,
                hwnd: s[i].hwnd,
                set_order: s[i].set_order,
                z_order: s[i].z_order,
            },
    )
}

/// What was done between two moments is a recovery of all windows, and the report tells it.
pub open spec fn recovers(
    before: Seq<WindowCall>,
    after: Seq<WindowCall>,
    report: RecoveryReport,
    worksets: Seq<Workset>,
    decisions: Map<Uuid, MatchView>,
    main: Option<MonitorInfo>,
) -> bool {
    exists|calls: Seq<WindowCall>, sorted: Seq<Found>|
        {
            &&& after == before + calls
            &&& in_tiling_order(sorted, found_windows(worksets, decisions, worksets.len()))
            &&& #[trigger] is_recovery(
                calls,
                report_view(report.recovered@),
                report_view(report.skipped@),
                sorted,
                lost_windows(worksets, decisions, worksets.len()),
                main,
            )
        }
}

/// Brings every registered window that can be found back onto the main screen, tiled.
pub fn recover_all_windows<W: WindowOps, M: WindowMatching>(
    window_ops: &mut Recorder<W>,
    matching: &M,
    worksets: &[Workset],
    live_windows: &[TopLevelWindow],
    live_monitors: &[MonitorInfo],
    main_monitor_ids: &[String],
) -> (r: RecoveryReport)
    requires
        parking_allocator::monitors_fit(live_monitors@),
        workset_service::all_windows(worksets@).len() <= i32::MAX,
    ensures
        final(window_ops).desktop() == old(window_ops).desktop(),
        ({
            let decisions = workset_service::all_decisions(
                *matching,
                worksets@,
                live_windows@,
                Map::empty(),
                None,
            );
            recovers(
                old(window_ops).history(),
                final(window_ops).history(),
                r,
                worksets@,
                decisions,
                monitor_resolution::first_live(live_monitors@, main_monitor_ids@),
            )
        }),
{
    let ghost start = window_ops.history();
    let decisions = workset_service::resolve_all_matches(matching, worksets, live_windows);
    let ghost dv = workset_service::decisions_view(decisions@);
    let mut candidates: Vec<Candidate> = Vec::new();
    let mut skipped: Vec<RecoveredWindow> = Vec::new();
    let mut i: usize = 0;
    assert(candidates_view(candidates@) =~= Seq::<Found>::empty());
    assert(report_view(skipped@) =~= Seq::<RecoveredView>::empty());
    while i < worksets.len()
        invariant
            window_ops.desktop() == old(window_ops).desktop(),
            i <= worksets@.len(),
            dv == workset_service::decisions_view(decisions@),
            candidates_view(candidates@) == found_windows(worksets@, dv, i as nat),
            report_view(skipped@) == lost_windows(worksets@, dv, i as nat),
        decreases worksets@.len() - i,
    {
        let workset = &worksets[i];
        let ghost found_before = candidates_view(candidates@);
        let ghost lost_before = report_view(skipped@);
        let mut k: usize = 0;
        assert(found_before + found_in_set(*workset, dv, 0) =~= found_before);
        assert(lost_before + lost_in_set(*workset, dv, 0) =~= lost_before);
        while k < workset.windows.len()
            invariant
                window_ops.desktop() == old(window_ops).desktop(),
                k <= workset.windows@.len(),
                dv == workset_service::decisions_view(decisions@),
                candidates_view(candidates@) == found_before + found_in_set(
                    *workset,
                    dv,
                    k as nat,
                ),
                report_view(skipped@) == lost_before + lost_in_set(*workset, dv, k as nat),
            decreases workset.windows@.len() - k,
        {
            let managed = &workset.windows[k];
            let ghost cb = candidates@;
            match workset_service::settled_handle(&decisions, managed.id) {
                Some(hwnd) => {
                    candidates.push(
                        Candidate {
                            id: managed.id,
                            hwnd,
                            set_order: workset.sort_order,
                            z_order: managed.z_order,
                        },
                    );
                    proof {
                        let f = Found {
                            id: managed.id,
                            hwnd,
                            set_order: workset.sort_order,
                            z_order: managed.z_order,
                        };
                        assert(candidates_view(candidates@) =~= candidates_view(cb).push(f));
                        assert(found_before + found_in_set(*workset, dv, (k + 1) as nat)
                            =~= candidates_view(cb).push(f));
                    }
                },
                None => {
                    let lost = RecoveredWindow {
                        managed_window_id: managed.id,
                        hwnd: 0,
                        placed_rect: None,
                        skip_reason: Some(text::owned("window could not be re-resolved")),
                    };
                    proof {
                        lemma_report_push(skipped@, lost);
                        assert(lost@ == lost_view(managed.id));
                        assert(lost_before + lost_in_set(*workset, dv, (k + 1) as nat)
                            =~= report_view(skipped@).push(lost@));
                    }
                    skipped.push(lost);
                },
            }
            k += 1;
        }
        i += 1;
    }
    let ghost found = candidates_view(candidates@);
    let ghost lost = report_view(skipped@);
    proof {
        lemma_found_bound(worksets@, dv, worksets@.len());
        assert(worksets@.take(worksets@.len() as int) =~= worksets@);
    }
    let mut keys: Vec<(i32, (i32, isize))> = Vec::new();
    let mut j: usize = 0;
    while j < candidates.len()
        invariant
            window_ops.desktop() == old(window_ops).desktop(),
            j <= candidates@.len(),
            found == candidates_view(candidates@),
            keys@ == found_keys(found).take(j as int),
        decreases candidates@.len() - j,
    {
        keys.push((candidates[j].set_order, (candidates[j].z_order, candidates[j].hwnd)));
        j += 1;
    }
    assert(keys@ =~= found_keys(found));
    let o = order::stable_order(&keys);
    let ghost sorted = order::picked(found, o@);
    assert(in_tiling_order(sorted, found));
    let n: usize = o.len();
    let home = monitor_resolution::find_first_live(live_monitors, main_monitor_ids);
    let ghost home_view = monitor_resolution::first_live(live_monitors@, main_monitor_ids@);
    let area = match home {
        Some(m) => m.work_area_px,
        None => {
            add_skipped(&candidates, &o, "no live main monitor", &mut skipped);
            let report = RecoveryReport { recovered: Vec::new(), skipped };
            proof {
                let calls = Seq::<WindowCall>::empty();
                assert(report_view(report.recovered@) =~= Seq::<RecoveredView>::empty());
                assert(window_ops.history() =~= start + calls);
                assert(is_recovery(
                    calls,
                    report_view(report.recovered@),
                    report_view(report.skipped@),
                    sorted,
                    lost,
                    home_view,
                ));
            }
            return report;
        },
    };
    let mut a: usize = 0;
    while a < n
        invariant
            window_ops.desktop() == old(window_ops).desktop(),
            a <= n == o@.len(),
            found == candidates_view(candidates@),
            sorted == order::picked(found, o@),
            forall|b: int| 0 <= b < o@.len() ==> (#[trigger] o@[b]) < candidates@.len(),
            window_ops.history() == start + restore_calls(sorted).take(a as int),
        decreases n - a,
    {
        let at: usize = o[a];
        window_ops.restore(candidates[at].hwnd);
        proof {
            let calls = restore_calls(sorted);
            assert(calls.take(a + 1) =~= calls.take(a as int).push(calls[a as int]));
        }
        a += 1;
    }
    assert(restore_calls(sorted).take(n as int) =~= restore_calls(sorted));
    let tiles = plan_recovery_tiles(n, area);
    let mut moves: Vec<(isize, PixelRect)> = Vec::new();
    let mut b: usize = 0;
    while b < n
        invariant
            window_ops.desktop() == old(window_ops).desktop(),
            b <= n == o@.len(),
            found == candidates_view(candidates@),
            sorted == order::picked(found, o@),
            tiles@ == tiles_for(n as nat, area),
            forall|c: int| 0 <= c < o@.len() ==> (#[trigger] o@[c]) < candidates@.len(),
            moves@ == tile_moves(sorted, area).take(b as int),
        decreases n - b,
    {
        let at: usize = o[b];
        moves.push((candidates[at].hwnd, tiles[b]));
        assert(moves@ =~= tile_moves(sorted, area).take(b + 1));
        b += 1;
    }
    assert(moves@ =~= tile_moves(sorted, area));
    let moved = window_ops.batch_move(moves.as_slice());
    let ghost calls = restore_calls(sorted).push(batch(sorted, area, moved is Ok));
    assert(window_ops.history() =~= start + calls);
    let mut recovered: Vec<RecoveredWindow> = Vec::new();
    assert(report_view(recovered@) =~= Seq::<RecoveredView>::empty());
    match moved {
        Ok(()) => {
            let mut c: usize = 0;
            assert(report_view(recovered@) =~= tiled(sorted, area).take(0));
            while c < n
                invariant
                    window_ops.desktop() == old(window_ops).desktop(),
                    c <= n == o@.len(),
                    found == candidates_view(candidates@),
                    sorted == order::picked(found, o@),
                    tiles@ == tiles_for(n as nat, area),
                    forall|d: int| 0 <= d < o@.len() ==> (#[trigger] o@[d]) < candidates@.len(),
                    report_view(recovered@) == tiled(sorted, area).take(c as int),
                decreases n - c,
            {
                let at: usize = o[c];
                let done = RecoveredWindow {
                    managed_window_id: candidates[at].id,
                    hwnd: candidates[at].hwnd,
                    placed_rect: Some(tiles[c]),
                    skip_reason: None,
                };
                proof {
                    lemma_report_push(recovered@, done);
                    let all = tiled(sorted, area);
                    assert(all.take(c + 1) =~= all.take(c as int).push(done@));
                }
                recovered.push(done);
                c += 1;
            }
            assert(tiled(sorted, area).take(n as int) =~= tiled(sorted, area));
        },
        Err(_) => {
            add_skipped(&candidates, &o, "batch move failed", &mut skipped);
        },
    }
    let report = RecoveryReport { recovered, skipped };
    proof {
        assert(window_ops.history() == start + calls);
        assert(in_tiling_order(sorted, found_windows(worksets@, dv, worksets@.len())));
        assert(is_recovery(
            calls,
            report_view(report.recovered@),
            report_view(report.skipped@),
            sorted,
            lost_windows(worksets@, dv, worksets@.len()),
            home_view,
        ));
    }
    report
}

proof fn lemma_found_bound(worksets: Seq<Workset>, decisions: Map<Uuid, MatchView>, n: nat)
    requires
        n <= worksets.len(),
    ensures
        found_windows(worksets, decisions, n).len() <= workset_service::all_windows(
            worksets.take(n as int),
        ).len(),
    decreases n,
{
    if n > 0 {
        lemma_found_bound(worksets, decisions, (n - 1) as nat);
        let w = worksets[n - 1];
        lemma_found_in_set_bound(w, decisions, w.windows@.len());
        assert(worksets.take(n as int).drop_last() =~= worksets.take(n - 1));
        assert(worksets.take(n as int).last() == w);
    }
}

proof fn lemma_found_in_set_bound(w: Workset, decisions: Map<Uuid, MatchView>, n: nat)
    ensures
        found_in_set(w, decisions, n).len() <= n,
    decreases n,
{
    if n > 0 {
        lemma_found_in_set_bound(w, decisions, (n - 1) as nat);
    }
}

/// Adds all candidates, in order, to the skipped ones.
fn add_skipped(
    candidates: &Vec<Candidate>,
    o: &Vec<usize>,
    reason: &str,
    skipped: &mut Vec<RecoveredWindow>,
)
    requires
        forall|b: int| 0 <= b < o@.len() ==> (#[trigger] o@[b]) < candidates@.len(),
    ensures
        report_view(final(skipped)@) == report_view(old(skipped)@) + skipped_because(
            order::picked(candidates_view(candidates@), o@),
            reason@,
        ),
{
    let ghost before = report_view(skipped@);
    let ghost sorted = order::picked(candidates_view(candidates@), o@);
    let ghost all = skipped_because(sorted, reason@);
    let mut k: usize = 0;
    assert(before + all.take(0) =~= before);
    while k < o.len()
        invariant
            k <= o@.len(),
            sorted == order::picked(candidates_view(candidates@), o@),
            all == skipped_because(sorted, reason@),
            forall|b: int| 0 <= b < o@.len() ==> (#[trigger] o@[b]) < candidates@.len(),
            report_view(skipped@) == before + all.take(k as int),
        decreases o@.len() - k,
    {
        let at: usize = o[k];
        let entry = RecoveredWindow {
            managed_window_id: candidates[at].id,
            hwnd: candidates[at].hwnd,
            placed_rect: None,
            skip_reason: Some(text::owned(reason)),
        };
        proof {
            lemma_report_push(skipped@, entry);
            assert(all.take(k + 1) =~= all.take(k as int).push(entry@));
            assert(before + all.take(k + 1) =~= (before + all.take(k as int)).push(entry@));
        }
        skipped.push(entry);
        k += 1;
    }
    assert(all.take(o@.len() as int) =~= all);
}

// ---------------------------------------------------------------------------
// What a recovery is for
// ---------------------------------------------------------------------------

/// The window found again is window `j` of set `i`.
pub open spec fn is_registered_as(
    f: Found,
    worksets: Seq<Workset>,
    decisions: Map<Uuid, MatchView>,
    i: int,
    j: int,
) -> bool {
    &&& 0 <= i < worksets.len()
    &&& 0 <= j < worksets[i].windows@.len()
    &&& f.id == worksets[i].windows@[j].id
    &&& workset_service::handle_of(decisions, f.id) == Some(f.hwnd)
    &&& f.set_order == worksets[i].sort_order
    &&& f.z_order == worksets[i].windows@[j].z_order
}

/// Where a window that was found again in a set is registered.
proof fn lemma_found_in_set(
    worksets: Seq<Workset>,
    i: int,
    decisions: Map<Uuid, MatchView>,
    n: nat,
    k: int,
) -> (j: int)
    requires
        0 <= i < worksets.len(),
        n <= worksets[i].windows@.len(),
        0 <= k < found_in_set(worksets[i], decisions, n).len(),
    ensures
        is_registered_as(
            found_in_set(worksets[i], decisions, n)[k],
            worksets,
            decisions,
            i,
            j,
        ),
    decreases n,
{
    let m = (n - 1) as nat;
    let before = found_in_set(worksets[i], decisions, m);
    if k < before.len() {
        lemma_found_in_set(worksets, i, decisions, m, k)
    } else {
        m as int
    }
}

/// Where a window that was found again is registered.
proof fn lemma_found_origin(
    worksets: Seq<Workset>,
    decisions: Map<Uuid, MatchView>,
    n: nat,
    k: int,
) -> (r: (int, int))
    requires
        n <= worksets.len(),
        0 <= k < found_windows(worksets, decisions, n).len(),
    ensures
        is_registered_as(
            found_windows(worksets, decisions, n)[k],
            worksets,
            decisions,
            r.0,
            r.1,
        ),
    decreases n,
{
    let m = (n - 1) as nat;
    let before = found_windows(worksets, decisions, m);
    if k < before.len() {
        lemma_found_origin(worksets, decisions, m, k)
    } else {
        let len = worksets[m as int].windows@.len();
        let j = lemma_found_in_set(worksets, m as int, decisions, len, k - before.len());
        (m as int, j)
    }
}

/// Where a window is listed among those of its set that were found again, or were not.
proof fn lemma_listed_in_set(w: Workset, decisions: Map<Uuid, MatchView>, n: nat, j: int) -> (k: int)
    requires
        n <= w.windows@.len(),
        0 <= j < n,
    ensures
        workset_service::handle_of(decisions, w.windows@[j].id) is Some ==> 0 <= k < found_in_set(
            w,
            decisions,
            n,
        ).len() && found_in_set(w, decisions, n)[k].id == w.windows@[j].id,
        workset_service::handle_of(decisions, w.windows@[j].id) is None ==> 0 <= k < lost_in_set(
            w,
            decisions,
            n,
        ).len() && lost_in_set(w, decisions, n)[k].id == w.windows@[j].id,
    decreases n,
{
    let m = (n - 1) as nat;
    if j < m {
        lemma_listed_in_set(w, decisions, m, j)
    } else if workset_service::handle_of(decisions, w.windows@[j].id) is Some {
        found_in_set(w, decisions, m).len() as int
    } else {
        lost_in_set(w, decisions, m).len() as int
    }
}

/// Where a window is listed among all that were found again, or were not.
proof fn lemma_listed(
    worksets: Seq<Workset>,
    decisions: Map<Uuid, MatchView>,
    n: nat,
    i: int,
    j: int,
) -> (k: int)
    requires
        n <= worksets.len(),
        0 <= i < n,
        0 <= j < worksets[i].windows@.len(),
    ensures
        ({
            let id = worksets[i].windows@[j].id;
            let found = found_windows(worksets, decisions, n);
            let lost = lost_windows(worksets, decisions, n);
            &&& workset_service::handle_of(decisions, id) is Some ==> 0 <= k < found.len()
                && found[k].id == id
            &&& workset_service::handle_of(decisions, id) is None ==> 0 <= k < lost.len()
                && lost[k].id == id
        }),
    decreases n,
{
    let m = (n - 1) as nat;
    if i < m {
        lemma_listed(worksets, decisions, m, i, j)
    } else {
        let w = worksets[i];
        let k = lemma_listed_in_set(w, decisions, w.windows@.len(), j);
        if workset_service::handle_of(decisions, w.windows@[j].id) is Some {
            found_windows(worksets, decisions, m).len() + k
        } else {
            lost_windows(worksets, decisions, m).len() + k
        }
    }
}

proof fn lemma_lost_in_set(w: Workset, decisions: Map<Uuid, MatchView>, n: nat, k: int)
    requires
        0 <= k < lost_in_set(w, decisions, n).len(),
    ensures
        lost_in_set(w, decisions, n)[k].placed is None,
        lost_in_set(w, decisions, n)[k].reason is Some,
    decreases n,
{
    let m = (n - 1) as nat;
    if k < lost_in_set(w, decisions, m).len() {
        lemma_lost_in_set(w, decisions, m, k);
    }
}

/// A window that was not found again is reported as such.
proof fn lemma_lost(worksets: Seq<Workset>, decisions: Map<Uuid, MatchView>, n: nat, k: int)
    requires
        0 <= k < lost_windows(worksets, decisions, n).len(),
    ensures
        lost_windows(worksets, decisions, n)[k].placed is None,
        lost_windows(worksets, decisions, n)[k].reason is Some,
    decreases n,
{
    let m = (n - 1) as nat;
    let before = lost_windows(worksets, decisions, m);
    if k < before.len() {
        lemma_lost(worksets, decisions, m, k);
    } else {
        let w = worksets[m as int];
        lemma_lost_in_set(w, decisions, w.windows@.len(), k - before.len());
    }
}

/// Every window that a recovery reports as recovered is left in the normal state at the place that
/// is reported, which lies in the work area of the main monitor: it is restored before all windows
/// are moved in one batch, and nothing else is done to any window.
pub proof fn law_recovered_windows_are_shown(
    before: Seq<WindowCall>,
    after: Seq<WindowCall>,
    report: RecoveryReport,
    worksets: Seq<Workset>,
    decisions: Map<Uuid, MatchView>,
    main: Option<MonitorInfo>,
    k: int,
    s: Shown,
)
    requires
        recovers(before, after, report, worksets, decisions, main),
        main matches Some(m) ==> m.work_area_px.fits() && m.work_area_px.width >= 0
            && m.work_area_px.height >= 0,
        0 <= k < report.recovered@.len(),
        forall|j: int|
            k < j < report.recovered@.len() ==> (#[trigger] report.recovered@[j]).hwnd
                != report.recovered@[k].hwnd,
    ensures
        ({
            let calls = after.skip(before.len() as int);
            let w = report.recovered@[k];
            &&& main is Some
            &&& w.skip_reason is None
            &&& w.placed_rect matches Some(rect) && main->0.work_area_px.encloses(rect)
            &&& effects::after(s, w.hwnd, calls) == (Shown {
                rect: w.placed_rect->0,
                state: SavedShowState::Normal,
            })
            &&& calls.len() > 0
            &&& calls.last() matches WindowCall::BatchMove { moves, done } && done
            &&& calls.drop_last().contains(WindowCall::Restore { hwnd: w.hwnd })
            &&& forall|i: int| 0 <= i < calls.len() - 1 ==> #[trigger] calls[i] is Restore
        }),
{
    let (calls, sorted) = choose|calls: Seq<WindowCall>, sorted: Seq<Found>|
        {
            &&& after == before + calls
            &&& in_tiling_order(sorted, found_windows(worksets, decisions, worksets.len()))
            &&& #[trigger] is_recovery(
                calls,
                report_view(report.recovered@),
                report_view(report.skipped@),
                sorted,
                lost_windows(worksets, decisions, worksets.len()),
                main,
            )
        };
    assert(after.skip(before.len() as int) =~= calls);
    assert(report_view(report.recovered@).len() > 0);
    assert(report_view(report.recovered@)[k] == report.recovered@[k]@);
    let area = main->0.work_area_px;
    let done = choose|done: bool|
        {
            &&& calls == restore_calls(sorted).push(#[trigger] batch(sorted, area, done))
            &&& done ==> report_view(report.recovered@) == tiled(sorted, area) && report_view(
                report.skipped@,
            ) == lost_windows(worksets, decisions, worksets.len())
            &&& !done ==> report_view(report.recovered@) == Seq::<RecoveredView>::empty()
        };
    assert(done);
    let h = report.recovered@[k].hwnd;
    let restores = restore_calls(sorted);
    let moves = tile_moves(sorted, area);
    assert(tiled(sorted, area)[k].hwnd == sorted[k].hwnd);
    assert(restores[k] == WindowCall::Restore { hwnd: h });
    assert(calls.drop_last() =~= restores);
    lemma_restored(s, sorted, k);
    effects::lemma_after_push(s, h, restores, batch(sorted, area, done));
    assert forall|i: int| k < i < moves.len() implies (#[trigger] moves[i]).0 != moves[k].0 by {
        assert(report_view(report.recovered@)[i] == report.recovered@[i]@);
        assert(tiled(sorted, area)[i].hwnd == sorted[i].hwnd);
    }
    effects::lemma_moved_once(moves, k, s.rect);
    let n = sorted.len();
    lemma_tile_position(n as int, k);
    lemma_steps(area.width as int, tile_columns(n as int), k % tile_columns(n as int));
    lemma_steps(area.height as int, tile_rows(n as int), k / tile_columns(n as int));
}

proof fn lemma_restored(s: Shown, found: Seq<Found>, k: int)
    requires
        0 <= k < found.len(),
    ensures
        effects::after(s, found[k].hwnd, restore_calls(found)) == (Shown {
            state: SavedShowState::Normal,
            ..s
        }),
    decreases found.len(),
{
    let h = found[k].hwnd;
    let calls = restore_calls(found);
    let rest = found.drop_last();
    assert(calls.drop_last() =~= restore_calls(rest));
    if k < found.len() - 1 {
        lemma_restored(s, rest, k);
    } else {
        lemma_restored_rect(s, rest, h);
    }
}

proof fn lemma_restored_rect(s: Shown, found: Seq<Found>, h: isize)
    ensures
        effects::after(s, h, restore_calls(found)).rect == s.rect,
    decreases found.len(),
{
    if found.len() > 0 {
        assert(restore_calls(found).drop_last() =~= restore_calls(found.drop_last()));
        lemma_restored_rect(s, found.drop_last(), h);
    }
}

/// Every registered window is accounted for. One that was not found again is reported as skipped,
/// with a reason. One that was found again is reported as recovered under its handle where a main
/// monitor is connected and the batch of moves went through, and otherwise as skipped, with a
/// reason.
pub proof fn law_every_registered_window_is_reported(
    before: Seq<WindowCall>,
    after: Seq<WindowCall>,
    report: RecoveryReport,
    worksets: Seq<Workset>,
    decisions: Map<Uuid, MatchView>,
    main: Option<MonitorInfo>,
    i: int,
    j: int,
)
    requires
        recovers(before, after, report, worksets, decisions, main),
        0 <= i < worksets.len(),
        0 <= j < worksets[i].windows@.len(),
    ensures
        ({
            let calls = after.skip(before.len() as int);
            let id = worksets[i].windows@[j].id;
            let handle = workset_service::handle_of(decisions, id);
            let moved = calls.len() > 0 && (calls.last() matches WindowCall::BatchMove {
                moves,
                done,
            } && done);
            &&& main is None ==> calls.len() == 0
            &&& main is Some ==> calls.len() > 0 && calls.last() is BatchMove
            &&& if handle is Some && moved {
                exists|k: int|
                    0 <= k < report.recovered@.len() && (
                    #[trigger] report.recovered@[k]).managed_window_id == id && Some(
                        report.recovered@[k].hwnd,
                    ) == handle
            } else {
                exists|k: int|
                    0 <= k < report.skipped@.len() && (
                    #[trigger] report.skipped@[k]).managed_window_id == id
                        && report.skipped@[k].placed_rect is None
                        && report.skipped@[k].skip_reason is Some
            }
            &&& !moved ==> report.recovered@.len() == 0
        }),
{
    let lost = lost_windows(worksets, decisions, worksets.len());
    let found = found_windows(worksets, decisions, worksets.len());
    let (calls, sorted) = choose|calls: Seq<WindowCall>, sorted: Seq<Found>|
        {
            &&& after == before + calls
            &&& in_tiling_order(sorted, found)
            &&& #[trigger] is_recovery(
                calls,
                report_view(report.recovered@),
                report_view(report.skipped@),
                sorted,
                lost,
                main,
            )
        };
    assert(after.skip(before.len() as int) =~= calls);
    let rv = report_view(report.recovered@);
    let sv = report_view(report.skipped@);
    assert(rv.len() == report.recovered@.len() && sv.len() == report.skipped@.len());
    let id = worksets[i].windows@[j].id;
    let at = lemma_listed(worksets, decisions, worksets.len(), i, j);
    let mut place = at;
    if workset_service::handle_of(decisions, id) is Some {
        let o = choose|o: Seq<usize>| #[trigger]
            order::is_stable_order(o, found_keys(found)) && sorted == order::picked(found, o);
        order::lemma_stable_order_distinct(o, found_keys(found));
        order::lemma_order_is_complete(o, found.len());
        assert(o.contains(at as usize));
        let k = choose|k: int| 0 <= k < o.len() && o[k] == at as usize;
        assert(sorted.len() == o.len() && sorted[k] == found[at]);
        let origin = lemma_found_origin(worksets, decisions, worksets.len(), at);
        place = k;
        assert(0 <= place < sorted.len() && sorted[place].id == id);
        assert(workset_service::handle_of(decisions, id) == Some(sorted[place].hwnd));
    } else {
        lemma_lost(worksets, decisions, worksets.len(), at);
    }
    let k = place;
    match main {
        None => {
            if workset_service::handle_of(decisions, id) is Some {
                let t = lost.len() + k;
                assert(sv[t] == skipped_because(sorted, "no live main monitor"@)[k]);
                assert(sv[t] == report.skipped@[t]@);
            } else {
                assert(sv[k] == lost[k]);
                assert(sv[k] == report.skipped@[k]@);
            }
        },
        Some(m) => {
            let done = choose|done: bool|
                {
                    &&& calls == restore_calls(sorted).push(
                        #[trigger] batch(sorted, m.work_area_px, done),
                    )
                    &&& done ==> rv == tiled(sorted, m.work_area_px) && sv == lost
                    &&& !done ==> rv == Seq::<RecoveredView>::empty() && sv == lost
                        + skipped_because(sorted, "batch move failed"@)
                };
            assert(calls.last() == batch(sorted, m.work_area_px, done));
            if workset_service::handle_of(decisions, id) is None {
                assert(sv[k] == lost[k]);
                assert(sv[k] == report.skipped@[k]@);
            } else if done {
                assert(rv[k] == tiled(sorted, m.work_area_px)[k]);
                assert(rv[k] == report.recovered@[k]@);
            } else {
                let t = lost.len() + k;
                assert(sv[t] == skipped_because(sorted, "batch move failed"@)[k]);
                assert(sv[t] == report.skipped@[t]@);
            }
        },
    }
}

/// Windows are tiled set by set in the order of the sets, and within a set from the lowest to the
/// highest.
pub proof fn law_tiles_follow_the_order_of_the_sets(
    before: Seq<WindowCall>,
    after: Seq<WindowCall>,
    report: RecoveryReport,
    worksets: Seq<Workset>,
    decisions: Map<Uuid, MatchView>,
    main: Option<MonitorInfo>,
    a: int,
    b: int,
)
    requires
        recovers(before, after, report, worksets, decisions, main),
        0 <= a < b < report.recovered@.len(),
    ensures
        exists|i: int, j: int, x: int, y: int|
            {
                &&& 0 <= i < worksets.len()
                &&& 0 <= j < worksets[i].windows@.len()
                &&& 0 <= x < worksets.len()
                &&& 0 <= y < worksets[x].windows@.len()
                &&& report.recovered@[a].managed_window_id == (
                #[trigger] worksets[i].windows@[j]).id
                &&& report.recovered@[b].managed_window_id == (
                #[trigger] worksets[x].windows@[y]).id
                &&& worksets[i].sort_order <= worksets[x].sort_order
                &&& worksets[i].sort_order == worksets[x].sort_order
                    ==> worksets[i].windows@[j].z_order <= worksets[x].windows@[y].z_order
            },
{
    let lost = lost_windows(worksets, decisions, worksets.len());
    let found = found_windows(worksets, decisions, worksets.len());
    let (calls, sorted) = choose|calls: Seq<WindowCall>, sorted: Seq<Found>|
        {
            &&& after == before + calls
            &&& in_tiling_order(sorted, found)
            &&& #[trigger] is_recovery(
                calls,
                report_view(report.recovered@),
                report_view(report.skipped@),
                sorted,
                lost,
                main,
            )
        };
    let rv = report_view(report.recovered@);
    assert(rv.len() > 0);
    assert(rv[a] == report.recovered@[a]@ && rv[b] == report.recovered@[b]@);
    let area = main->0.work_area_px;
    let done = choose|done: bool|
        {
            &&& calls == restore_calls(sorted).push(#[trigger] batch(sorted, area, done))
            &&& done ==> rv == tiled(sorted, area)
            &&& !done ==> rv == Seq::<RecoveredView>::empty()
        };
    assert(rv[a] == tiled(sorted, area)[a] && rv[b] == tiled(sorted, area)[b]);
    let keys = found_keys(found);
    let o = choose|o: Seq<usize>| #[trigger]
        order::is_stable_order(o, keys) && sorted == order::picked(found, o);
    assert(sorted[a] == found[o[a] as int] && sorted[b] == found[o[b] as int]);
    assert(order::stable_before(keys, o[a] as int, o[b] as int));
    let (i, j) = lemma_found_origin(worksets, decisions, worksets.len(), o[a] as int);
    let (x, y) = lemma_found_origin(worksets, decisions, worksets.len(), o[b] as int);
    assert(worksets[i].windows@[j].id == report.recovered@[a].managed_window_id);
    assert(worksets[x].windows@[y].id == report.recovered@[b].managed_window_id);
}

} // verus!
