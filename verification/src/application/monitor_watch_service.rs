//! Noticing that the monitors have changed, and which windows that left out of sight.

use vstd::prelude::*;

use crate::application::workset_service;
use crate::domain::monitor::MonitorInfo;
use crate::domain::placement;
use crate::domain::placement::PixelRect;
use crate::domain::workset::{ManagedWindow, Workset};
use crate::ids::Uuid;
use crate::order;
use crate::text;
use crate::windowing::enumerate;
use crate::windowing::enumerate::TopLevelWindow;
use crate::windowing::matcher::{MatchView, WindowMatching};

verus! {

/// A rectangle as text: its four numbers with commas between them.
pub open spec fn rect_text(r: PixelRect) -> Seq<char> {
    text::signed_decimal(r.x as int) + seq![','] + text::signed_decimal(r.y as int) + seq![',']
        + text::signed_decimal(r.width as int) + seq![','] + text::signed_decimal(r.height as int)
}

/// One monitor as text.
pub open spec fn part_of(m: MonitorInfo) -> Seq<char> {
    m.device_name@ + seq![':'] + rect_text(m.bounds_px)
}

pub open spec fn parts_of(monitors: Seq<MonitorInfo>) -> Seq<Seq<char>> {
    monitors.map_values(|m: MonitorInfo| part_of(m))
}

/// All monitors as one text: the parts in ascending order, with bars between them.
pub open spec fn fingerprint_of(monitors: Seq<MonitorInfo>) -> Seq<char> {
    text::join_with(order::sorted_of(parts_of(monitors)), seq!['|'])
}

fn write_part(m: &MonitorInfo) -> (r: String)
    ensures
        r@ == part_of(*m),
{
    let mut out = m.device_name.clone();
    out.push(':');
    let x = text::signed_decimal_text(m.bounds_px.x as i64);
    let y = text::signed_decimal_text(m.bounds_px.y as i64);
    let w = text::signed_decimal_text(m.bounds_px.width as i64);
    let h = text::signed_decimal_text(m.bounds_px.height as i64);
    out.append(x.as_str());
    out.push(',');
    out.append(y.as_str());
    out.push(',');
    out.append(w.as_str());
    out.push(',');
    out.append(h.as_str());
    assert(out@ =~= part_of(*m));
    out
}

/// A text that two snapshots of the monitors share exactly when nothing has changed, in whatever
/// order the monitors are listed.
pub fn compute_fingerprint(monitors: &[MonitorInfo]) -> (r: String)
    ensures
        r@ == fingerprint_of(monitors@),
{
    let mut parts: Vec<String> = Vec::new();
    let mut i: usize = 0;
    let ghost all = parts_of(monitors@);
    assert(text::texts(parts@) =~= all.take(0));
    while i < monitors.len()
        invariant
            i <= monitors@.len(),
            all == parts_of(monitors@),
            text::texts(parts@) == all.take(i as int),
        decreases monitors@.len() - i,
    {
        let ghost before = parts@;
        parts.push(write_part(&monitors[i]));
        proof {
            assert(all[i as int] == part_of(monitors@[i as int]));
            assert(text::texts(parts@) =~= text::texts(before).push(all[i as int]));
            assert(all.take(i + 1) =~= all.take(i as int).push(all[i as int]));
        }
        i += 1;
    }
    assert(text::texts(parts@) =~= all);
    let sorted = order::sorted_texts(&parts);
    proof {
        reveal_strlit("|");
        assert("|"@ =~= seq!['|']);
    }
    text::join_text(&sorted, "|")
}

/// What of a monitor the fingerprint shows: its name and its bounds.
pub open spec fn appearance(m: MonitorInfo) -> (Seq<char>, PixelRect) {
    (m.device_name@, m.bounds_px)
}

pub open spec fn appearances(monitors: Seq<MonitorInfo>) -> Seq<(Seq<char>, PixelRect)> {
    monitors.map_values(|m: MonitorInfo| appearance(m))
}

/// Only names and bounds count for the fingerprint, and not the order in which the monitors are
/// listed.
pub proof fn law_fingerprint_ignores_order(a: Seq<MonitorInfo>, b: Seq<MonitorInfo>)
    requires
        appearances(a).to_multiset() == appearances(b).to_multiset(),
    ensures
        fingerprint_of(a) == fingerprint_of(b),
{
    let write = |x: (Seq<char>, PixelRect)| x.0 + seq![':'] + rect_text(x.1);
    assert(appearances(a).map_values(write) =~= parts_of(a));
    assert(appearances(b).map_values(write) =~= parts_of(b));
    order::lemma_map_to_multiset(appearances(a), appearances(b), write);
    order::lemma_sorted_of_same(parts_of(a), parts_of(b));
}

/// Two texts around the last separator are told apart.
proof fn lemma_last_separator(a: Seq<char>, b: Seq<char>, c: Seq<char>, d: Seq<char>, sep: char)
    requires
        a + seq![sep] + b == c + seq![sep] + d,
        text::lacks(b, sep),
        text::lacks(d, sep),
    ensures
        a == c,
        b == d,
{
    let s = a + seq![sep] + b;
    let t = c + seq![sep] + d;
    assert(s == t);
    assert(s.len() == a.len() + 1 + b.len());
    assert(t.len() == c.len() + 1 + d.len());
    if a.len() < c.len() {
        assert(t[c.len() as int] == sep);
        assert(s[c.len() as int] == b[c.len() - a.len() - 1]);
    } else if c.len() < a.len() {
        assert(s[a.len() as int] == sep);
        assert(t[a.len() as int] == d[a.len() - c.len() - 1]);
    }
    assert(a.len() == c.len());
    assert(b.len() == d.len());
    assert forall|i: int| 0 <= i < a.len() implies a[i] == c[i] by {
        assert(s[i] == t[i]);
    }
    assert forall|i: int| 0 <= i < b.len() implies b[i] == d[i] by {
        assert(s[a.len() + 1 + i] == t[a.len() + 1 + i]);
    }
    assert(a =~= c);
    assert(b =~= d);
}

/// Different numbers are written differently.
proof fn lemma_signed_decimal_injective(a: int, b: int)
    requires
        text::signed_decimal(a) == text::signed_decimal(b),
    ensures
        a == b,
{
    let m = if a < 0 {
        (-a) as nat
    } else {
        a as nat
    };
    let n = if b < 0 {
        (-b) as nat
    } else {
        b as nat
    };
    text::lemma_decimal_digits(m);
    text::lemma_decimal_digits(n);
    let s = text::signed_decimal(a);
    assert(text::is_digit(text::decimal(m)[0]));
    assert(text::is_digit(text::decimal(n)[0]));
    if a < 0 {
        assert(s[0] == '-');
        assert(b < 0);
        assert(s.skip(1) =~= text::decimal(m));
        assert(s.skip(1) =~= text::decimal(n));
    } else {
        assert(b >= 0);
    }
}

proof fn lemma_rect_text_lacks(r: PixelRect, c: char)
    requires
        !text::is_digit(c),
        c != '-',
        c != ',',
    ensures
        text::lacks(rect_text(r), c),
{
    text::lemma_decimal_lacks(r.x as int, c);
    text::lemma_decimal_lacks(r.y as int, c);
    text::lemma_decimal_lacks(r.width as int, c);
    text::lemma_decimal_lacks(r.height as int, c);
    let x = text::signed_decimal(r.x as int);
    let y = text::signed_decimal(r.y as int);
    let w = text::signed_decimal(r.width as int);
    let h = text::signed_decimal(r.height as int);
    lemma_lacks_joined(x, y, c);
    lemma_lacks_joined(x + seq![','] + y, w, c);
    lemma_lacks_joined(x + seq![','] + y + seq![','] + w, h, c);
}

proof fn lemma_lacks_joined(a: Seq<char>, b: Seq<char>, c: char)
    requires
        text::lacks(a, c),
        text::lacks(b, c),
        c != ',',
    ensures
        text::lacks(a + seq![','] + b, c),
{
    let s = a + seq![','] + b;
    assert forall|i: int| 0 <= i < s.len() implies s[i] != c by {
        if i < a.len() {
            assert(s[i] == a[i]);
        } else if i > a.len() {
            assert(s[i] == b[i - a.len() - 1]);
        }
    }
}

/// Monitors with the same part have the same name and bounds.
proof fn lemma_part_injective(a: MonitorInfo, b: MonitorInfo)
    requires
        part_of(a) == part_of(b),
    ensures
        a.device_name@ == b.device_name@,
        a.bounds_px == b.bounds_px,
{
    let p = a.bounds_px;
    let q = b.bounds_px;
    lemma_rect_text_lacks(p, ':');
    lemma_rect_text_lacks(q, ':');
    lemma_last_separator(a.device_name@, rect_text(p), b.device_name@, rect_text(q), ':');
    let (x, y) = (text::signed_decimal(p.x as int), text::signed_decimal(p.y as int));
    let (w, h) = (text::signed_decimal(p.width as int), text::signed_decimal(p.height as int));
    let (x2, y2) = (text::signed_decimal(q.x as int), text::signed_decimal(q.y as int));
    let (w2, h2) = (text::signed_decimal(q.width as int), text::signed_decimal(q.height as int));
    text::lemma_decimal_lacks(p.y as int, ',');
    text::lemma_decimal_lacks(p.width as int, ',');
    text::lemma_decimal_lacks(p.height as int, ',');
    text::lemma_decimal_lacks(q.y as int, ',');
    text::lemma_decimal_lacks(q.width as int, ',');
    text::lemma_decimal_lacks(q.height as int, ',');
    lemma_last_separator(
        x + seq![','] + y + seq![','] + w,
        h,
        x2 + seq![','] + y2 + seq![','] + w2,
        h2,
        ',',
    );
    lemma_last_separator(x + seq![','] + y, w, x2 + seq![','] + y2, w2, ',');
    lemma_last_separator(x, y, x2, y2, ',');
    lemma_signed_decimal_injective(p.x as int, q.x as int);
    lemma_signed_decimal_injective(p.y as int, q.y as int);
    lemma_signed_decimal_injective(p.width as int, q.width as int);
    lemma_signed_decimal_injective(p.height as int, q.height as int);
}

/// Where a joined text is empty, at most one empty piece went into it.
proof fn lemma_join_nonempty(pieces: Seq<Seq<char>>, sep: Seq<char>)
    requires
        pieces.len() >= 1,
        pieces.last().len() >= 1,
    ensures
        text::join_with(pieces, sep).len() >= 1,
{
}

/// What a part was written from.
spec fn read_part(part: Seq<char>) -> (Seq<char>, PixelRect) {
    appearance(choose|m: MonitorInfo| part_of(m) == part)
}

proof fn lemma_parts_read_back(monitors: Seq<MonitorInfo>)
    ensures
        parts_of(monitors).map_values(|p: Seq<char>| read_part(p)) == appearances(monitors),
{
    assert forall|i: int| 0 <= i < monitors.len() implies read_part(#[trigger] parts_of(monitors)[i])
        == appearance(monitors[i]) by {
        let part = parts_of(monitors)[i];
        assert(part == part_of(monitors[i]));
        let m = choose|m: MonitorInfo| part_of(m) == part;
        lemma_part_injective(m, monitors[i]);
    }
    assert(parts_of(monitors).map_values(|p: Seq<char>| read_part(p)) =~= appearances(monitors));
}

/// Two fingerprints agree exactly where the same names with the same bounds are there, each as
/// often, provided that no device name holds a bar.
pub proof fn law_fingerprint_tells_changes(a: Seq<MonitorInfo>, b: Seq<MonitorInfo>)
    requires
        forall|i: int| 0 <= i < a.len() ==> text::lacks((#[trigger] a[i]).device_name@, '|'),
        forall|i: int| 0 <= i < b.len() ==> text::lacks((#[trigger] b[i]).device_name@, '|'),
    ensures
        fingerprint_of(a) == fingerprint_of(b) <==> appearances(a).to_multiset() == appearances(
            b,
        ).to_multiset(),
{
    if appearances(a).to_multiset() == appearances(b).to_multiset() {
        law_fingerprint_ignores_order(a, b);
    }
    if fingerprint_of(a) == fingerprint_of(b) {
        let pa = parts_of(a);
        let pb = parts_of(b);
        order::lemma_sorted_of(pa);
        order::lemma_sorted_of(pb);
        let sa = order::sorted_of(pa);
        let sb = order::sorted_of(pb);
        lemma_sorted_parts(a);
        lemma_sorted_parts(b);
        if sa.len() >= 1 {
            lemma_join_nonempty(sa, seq!['|']);
            text::lemma_split_of_join(sa, '|');
        }
        if sb.len() >= 1 {
            lemma_join_nonempty(sb, seq!['|']);
            text::lemma_split_of_join(sb, '|');
        }
        assert(sa =~= sb);
        order::lemma_map_to_multiset(pa, pb, |p: Seq<char>| read_part(p));
        lemma_parts_read_back(a);
        lemma_parts_read_back(b);
    }
}

/// The parts stay without a bar, and none is empty, when they are put in order.
pub proof fn lemma_sorted_parts(a: Seq<MonitorInfo>)
    requires
        forall|i: int| 0 <= i < a.len() ==> text::lacks((#[trigger] a[i]).device_name@, '|'),
    ensures
        order::sorted_of(parts_of(a)).len() == a.len(),
        forall|k: int|
            0 <= k < a.len() ==> text::lacks(#[trigger] order::sorted_of(parts_of(a))[k], '|')
                && order::sorted_of(parts_of(a))[k].len() >= 1,
{
    broadcast use vstd::seq_lib::group_to_multiset_ensures;

    let pa = parts_of(a);
    let sa = order::sorted_of(pa);
    order::lemma_sorted_of(pa);
    pa.to_multiset_ensures();
    sa.to_multiset_ensures();
    assert forall|k: int| 0 <= k < sa.len() implies text::lacks(#[trigger] sa[k], '|')
        && sa[k].len() >= 1 by {
        assert(sa.contains(sa[k]));
        assert(pa.to_multiset().count(sa[k]) > 0);
        assert(pa.contains(sa[k]));
        let i = choose|i: int| 0 <= i < pa.len() && pa[i] == sa[k];
        assert(pa[i] == part_of(a[i]));
        assert(text::lacks(a[i].device_name@, '|'));
        lemma_rect_text_lacks(a[i].bounds_px, '|');
        let n = a[i].device_name@;
        let r = rect_text(a[i].bounds_px);
        let s = n + seq![':'] + r;
        assert forall|x: int| 0 <= x < s.len() implies s[x] != '|' by {
            if x < n.len() {
                assert(s[x] == n[x]);
            } else if x > n.len() {
                assert(s[x] == r[x - n.len() - 1]);
            }
        }
    }
}

/// No monitor shows any part of the window.
pub open spec fn out_of_sight(window: TopLevelWindow, monitors: Seq<MonitorInfo>) -> bool {
    forall|i: int|
        0 <= i < monitors.len() ==> !window.rect_px.meets((#[trigger] monitors[i]).bounds_px)
}

/// The live window that a registered one was found as.
pub open spec fn live_of(
    managed: ManagedWindow,
    decisions: Map<Uuid, MatchView>,
    live: Seq<TopLevelWindow>,
) -> Option<TopLevelWindow> {
    match workset_service::handle_of(decisions, managed.id) {
        Some(hwnd) => enumerate::live_at(live, hwnd),
        None => None,
    }
}

/// The handles of the registered windows that are out of sight, in the order registered.
pub open spec fn offscreen(
    windows: Seq<ManagedWindow>,
    decisions: Map<Uuid, MatchView>,
    live: Seq<TopLevelWindow>,
    monitors: Seq<MonitorInfo>,
) -> Seq<isize>
    decreases windows.len(),
{
    if windows.len() == 0 {
        Seq::empty()
    } else {
        let before = offscreen(windows.drop_last(), decisions, live, monitors);
        match live_of(windows.last(), decisions, live) {
            Some(w) => if out_of_sight(w, monitors) {
                before.push(w.hwnd)
            } else {
                before
            },
            None => before,
        }
    }
}

fn is_out_of_sight(window: &TopLevelWindow, monitors: &[MonitorInfo]) -> (r: bool)
    ensures
        r == out_of_sight(*window, monitors@),
{
    let mut i: usize = 0;
    while i < monitors.len()
        invariant
            i <= monitors@.len(),
            forall|k: int|
                0 <= k < i ==> !window.rect_px.meets((#[trigger] monitors@[k]).bounds_px),
        decreases monitors@.len() - i,
    {
        if window.rect_px.overlaps(&monitors[i].bounds_px) {
            return false;
        }
        i += 1;
    }
    true
}

/// Adding up lists of windows adds up what is out of sight.
proof fn lemma_offscreen_push(
    windows: Seq<ManagedWindow>,
    more: Seq<ManagedWindow>,
    decisions: Map<Uuid, MatchView>,
    live: Seq<TopLevelWindow>,
    monitors: Seq<MonitorInfo>,
)
    ensures
        offscreen(windows + more, decisions, live, monitors) == offscreen(
            windows,
            decisions,
            live,
            monitors,
        ) + offscreen(more, decisions, live, monitors),
    decreases more.len(),
{
    let a = offscreen(windows, decisions, live, monitors);
    if more.len() == 0 {
        assert(windows + more =~= windows);
        assert(a + offscreen(more, decisions, live, monitors) =~= a);
    } else {
        lemma_offscreen_push(windows, more.drop_last(), decisions, live, monitors);
        assert((windows + more).drop_last() =~= windows + more.drop_last());
        assert((windows + more).last() == more.last());
        assert(offscreen(windows + more, decisions, live, monitors) =~= a + offscreen(
            more,
            decisions,
            live,
            monitors,
        ));
    }
}

/// The handles of the registered windows of which no live monitor shows any part.
pub fn find_now_offscreen_windows<M: WindowMatching>(
    matching: &M,
    worksets: &[Workset],
    live_windows: &[TopLevelWindow],
    live_monitors: &[MonitorInfo],
) -> (r: Vec<isize>)
    ensures
        r@ == offscreen(
            workset_service::all_windows(worksets@),
            workset_service::all_decisions(
                *matching,
                worksets@,
                live_windows@,
                Map::empty(),
                None,
            ),
            live_windows@,
            live_monitors@,
        ),
{
    let decisions = workset_service::resolve_all_matches(matching, worksets, live_windows);
    let ghost dv = workset_service::decisions_view(decisions@);
    let mut out: Vec<isize> = Vec::new();
    let mut i: usize = 0;
    assert(out@ =~= offscreen(
        workset_service::all_windows(worksets@.take(0)),
        dv,
        live_windows@,
        live_monitors@,
    ));
    while i < worksets.len()
        invariant
            i <= worksets@.len(),
            dv == workset_service::decisions_view(decisions@),
            out@ == offscreen(
                workset_service::all_windows(worksets@.take(i as int)),
                dv,
                live_windows@,
                live_monitors@,
            ),
        decreases worksets@.len() - i,
    {
        let set = &worksets[i];
        let ghost before = out@;
        let mut k: usize = 0;
        assert(before + offscreen(set.windows@.take(0), dv, live_windows@, live_monitors@)
            =~= before);
        while k < set.windows.len()
            invariant
                k <= set.windows@.len(),
                dv == workset_service::decisions_view(decisions@),
                out@ == before + offscreen(
                    set.windows@.take(k as int),
                    dv,
                    live_windows@,
                    live_monitors@,
                ),
            decreases set.windows@.len() - k,
        {
            proof {
                assert(set.windows@.take(k + 1).drop_last() =~= set.windows@.take(k as int));
                assert(set.windows@.take(k + 1).last() == set.windows@[k as int]);
            }
            let ghost so_far = out@;
            if let Some(hwnd) = workset_service::settled_handle(&decisions, set.windows[k].id) {
                if let Some(w) = enumerate::find_live(live_windows, hwnd) {
                    if is_out_of_sight(w, live_monitors) {
                        out.push(w.hwnd);
                    }
                }
            }
            assert(out@ =~= before + offscreen(
                set.windows@.take(k + 1),
                dv,
                live_windows@,
                live_monitors@,
            ));
            k += 1;
        }
        proof {
            assert(set.windows@.take(set.windows@.len() as int) =~= set.windows@);
            assert(worksets@.take(i + 1).drop_last() =~= worksets@.take(i as int));
            assert(worksets@.take(i + 1).last() == *set);
            lemma_offscreen_push(
                workset_service::all_windows(worksets@.take(i as int)),
                set.windows@,
                dv,
                live_windows@,
                live_monitors@,
            );
        }
        i += 1;
    }
    assert(worksets@.take(worksets@.len() as int) =~= worksets@);
    out
}

/// A window that some monitor still shows a part of is never listed as out of sight.
pub proof fn law_visible_windows_are_left_alone(
    windows: Seq<ManagedWindow>,
    decisions: Map<Uuid, MatchView>,
    live: Seq<TopLevelWindow>,
    monitors: Seq<MonitorInfo>,
)
    ensures
        forall|k: int|
            0 <= k < offscreen(windows, decisions, live, monitors).len() ==> (enumerate::live_at(
                live,
                #[trigger] offscreen(windows, decisions, live, monitors)[k],
            ) matches Some(w) && out_of_sight(w, monitors)),
    decreases windows.len(),
{
    if windows.len() > 0 {
        law_visible_windows_are_left_alone(windows.drop_last(), decisions, live, monitors);
        let before = offscreen(windows.drop_last(), decisions, live, monitors);
        let now = offscreen(windows, decisions, live, monitors);
        assert forall|k: int| 0 <= k < now.len() implies (enumerate::live_at(
            live,
            #[trigger] now[k],
        ) matches Some(w) && out_of_sight(w, monitors)) by {
            if k < before.len() {
                assert(now[k] == before[k]);
            } else {
                let managed = windows.last();
                let hwnd = workset_service::handle_of(decisions, managed.id)->0;
                enumerate::lemma_live_at(live, hwnd);
            }
        }
    }
}

/// A registered window that was found again, and that shares no pixel with any monitor, is listed as
/// out of sight.
pub proof fn law_hidden_windows_are_listed(
    windows: Seq<ManagedWindow>,
    decisions: Map<Uuid, MatchView>,
    live: Seq<TopLevelWindow>,
    monitors: Seq<MonitorInfo>,
    i: int,
    k: int,
)
    requires
        0 <= i < windows.len(),
        0 <= k < live.len(),
        workset_service::handle_of(decisions, windows[i].id) == Some(live[k].hwnd),
        forall|a: int, b: int|
            0 <= a < b < live.len() ==> (#[trigger] live[a]).hwnd != (#[trigger] live[b]).hwnd,
        live[k].rect_px.width > 0 && live[k].rect_px.height > 0,
        forall|j: int|
            0 <= j < monitors.len() ==> (#[trigger] monitors[j]).bounds_px.width > 0
                && monitors[j].bounds_px.height > 0,
        forall|j: int, x: int, y: int|
            0 <= j < monitors.len() ==> !((#[trigger] monitors[j]).bounds_px.covers(x, y)
                && #[trigger] live[k].rect_px.covers(x, y)),
    ensures
        offscreen(windows, decisions, live, monitors).contains(live[k].hwnd),
    decreases windows.len(),
{
    let now = offscreen(windows, decisions, live, monitors);
    let rest = windows.drop_last();
    let before = offscreen(rest, decisions, live, monitors);
    if i < rest.len() {
        assert(rest[i] == windows[i]);
        law_hidden_windows_are_listed(rest, decisions, live, monitors, i, k);
        let j = choose|j: int| 0 <= j < before.len() && before[j] == live[k].hwnd;
        assert(now[j] == live[k].hwnd);
    } else {
        enumerate::law_window_is_found_by_its_handle(live, k);
        assert forall|j: int| 0 <= j < monitors.len() implies !live[k].rect_px.meets(
            (#[trigger] monitors[j]).bounds_px,
        ) by {
            let (a, b) = (live[k].rect_px, monitors[j].bounds_px);
            placement::law_meeting_is_sharing_a_pixel(a, b);
            if a.meets(b) {
                let (x, y) = choose|x: int, y: int| a.covers(x, y) && b.covers(x, y);
                assert(monitors[j].bounds_px.covers(x, y) && live[k].rect_px.covers(x, y));
            }
        }
        assert(out_of_sight(live[k], monitors));
        assert(now[now.len() - 1] == live[k].hwnd);
    }
}

} // verus!
