//! Finding a saved monitor among the connected ones, and putting monitors in reading order.

use vstd::prelude::*;

use crate::domain::monitor::MonitorInfo;
use crate::order;
use crate::text;

verus! {

/// The first connected monitor whose device name is `id`.
pub open spec fn live_monitor(live: Seq<MonitorInfo>, id: Seq<char>) -> Option<MonitorInfo>
    decreases live.len(),
{
    if live.len() == 0 {
        None
    } else if live[0].device_name@ == id {
        Some(live[0])
    } else {
        live_monitor(live.skip(1), id)
    }
}

/// The connected monitor of the first of `ids` that has one.
pub open spec fn first_live(live: Seq<MonitorInfo>, ids: Seq<String>) -> Option<MonitorInfo>
    decreases ids.len(),
{
    if ids.len() == 0 {
        None
    } else {
        match live_monitor(live, ids[0]@) {
            Some(m) => Some(m),
            None => first_live(live, ids.skip(1)),
        }
    }
}

/// `id` is one of the texts in `ids`.
pub open spec fn names(ids: Seq<String>, id: Seq<char>) -> bool {
    exists|i: int| 0 <= i < ids.len() && (#[trigger] ids[i])@ == id
}

pub proof fn lemma_names_are_texts(ids: Seq<String>, id: Seq<char>)
    ensures
        names(ids, id) == text::texts(ids).contains(id),
{
    if names(ids, id) {
        let i = choose|i: int| 0 <= i < ids.len() && (#[trigger] ids[i])@ == id;
        assert(text::texts(ids)[i] == id);
    }
    if text::texts(ids).contains(id) {
        let i = choose|i: int| 0 <= i < ids.len() && text::texts(ids)[i] == id;
        assert(ids[i]@ == id);
    }
}

/// Whether `id` is one of the texts in `ids`.
pub fn is_named(ids: &[String], id: &str) -> (r: bool)
    ensures
        r == names(ids@, id@),
{
    let mut i: usize = 0;
    while i < ids.len()
        invariant
            i <= ids@.len(),
            forall|j: int| 0 <= j < i ==> (#[trigger] ids@[j])@ != id@,
        decreases ids@.len() - i,
    {
        if text::same_text(ids[i].as_str(), id) {
            return true;
        }
        i += 1;
    }
    false
}

/// Matches a saved monitor id against the connected monitors' device names.
pub fn find_live_monitor_by_stable_id<'a>(live: &'a [MonitorInfo], stable_id: &str) -> (r: Option<
    &'a MonitorInfo,
>)
    ensures
        match r {
            Some(m) => live_monitor(live@, stable_id@) == Some(*m) && m.device_name@ == stable_id@
                && live@.contains(*m),
            None => live_monitor(live@, stable_id@) is None,
        },
{
    let mut i: usize = 0;
    assert(live@.skip(0) =~= live@);
    while i < live.len()
        invariant
            i <= live@.len(),
            live_monitor(live@, stable_id@) == live_monitor(live@.skip(i as int), stable_id@),
        decreases live@.len() - i,
    {
        if text::same_text(live[i].device_name.as_str(), stable_id) {
            assert(live@[i as int] == live@.skip(i as int)[0]);
            return Some(&live[i]);
        }
        assert(live@.skip(i as int).skip(1) =~= live@.skip(i + 1));
        i += 1;
    }
    None
}

/// The connected monitor of the first of `ids` that has one.
pub fn find_first_live<'a>(live: &'a [MonitorInfo], ids: &[String]) -> (r: Option<&'a MonitorInfo>)
    ensures
        match r {
            Some(m) => first_live(live@, ids@) == Some(*m) && live@.contains(*m),
            None => first_live(live@, ids@) is None,
        },
{
    let mut i: usize = 0;
    assert(ids@.skip(0) =~= ids@);
    while i < ids.len()
        invariant
            i <= ids@.len(),
            first_live(live@, ids@) == first_live(live@, ids@.skip(i as int)),
        decreases ids@.len() - i,
    {
        let found = find_live_monitor_by_stable_id(live, ids[i].as_str());
        assert(ids@.skip(i as int)[0] == ids@[i as int]);
        if found.is_some() {
            return found;
        }
        assert(ids@.skip(i as int).skip(1) =~= ids@.skip(i + 1));
        i += 1;
    }
    None
}

/// The connected monitor that `live_monitor` finds is a connected one with that name.
pub proof fn lemma_live_monitor(live: Seq<MonitorInfo>, id: Seq<char>)
    ensures
        match live_monitor(live, id) {
            Some(m) => live.contains(m) && m.device_name@ == id,
            None => forall|i: int| 0 <= i < live.len() ==> (#[trigger] live[i]).device_name@ != id,
        },
    decreases live.len(),
{
    if live.len() > 0 {
        if live[0].device_name@ != id {
            let rest = live.skip(1);
            lemma_live_monitor(rest, id);
            match live_monitor(rest, id) {
                Some(m) => {
                    let j = choose|j: int| 0 <= j < rest.len() && rest[j] == m;
                    assert(live[j + 1] == m);
                },
                None => {
                    assert forall|i: int| 0 <= i < live.len() implies (
                    #[trigger] live[i]).device_name@ != id by {
                        if i > 0 {
                            assert(rest[i - 1] == live[i]);
                        }
                    }
                },
            }
        }
    }
}

/// The keys of monitors in reading order: the top edge first, then the left edge.
pub open spec fn reading_keys(monitors: Seq<MonitorInfo>) -> Seq<(i32, i32)> {
    Seq::new(monitors.len(), |i: int| (monitors[i].bounds_px.y, monitors[i].bounds_px.x))
}

/// `sorted` is `monitors` in reading order, ties in the order given.
pub open spec fn in_reading_order(sorted: Seq<MonitorInfo>, monitors: Seq<MonitorInfo>) -> bool {
    exists|order: Seq<usize>| #[trigger]
        order::is_stable_order(order, reading_keys(monitors)) && sorted == order::picked(
            monitors,
            order,
        )
}

/// The sequence that `in_reading_order` describes is a single one.
pub proof fn lemma_reading_order_unique(
    a: Seq<MonitorInfo>,
    b: Seq<MonitorInfo>,
    monitors: Seq<MonitorInfo>,
)
    requires
        in_reading_order(a, monitors),
        in_reading_order(b, monitors),
    ensures
        a == b,
{
    let keys = reading_keys(monitors);
    let x = choose|order: Seq<usize>| #[trigger]
        order::is_stable_order(order, keys) && a == order::picked(monitors, order);
    let y = choose|order: Seq<usize>| #[trigger]
        order::is_stable_order(order, keys) && b == order::picked(monitors, order);
    order::lemma_stable_order_unique(x, y, keys);
}

/// The monitors, copied in reading order.
pub fn reading_order(monitors: &[MonitorInfo]) -> (r: Vec<MonitorInfo>)
    ensures
        in_reading_order(r@, monitors@),
        forall|i: int| 0 <= i < r@.len() ==> monitors@.contains(#[trigger] r@[i]),
{
    let mut keys: Vec<(i32, i32)> = Vec::new();
    let mut i: usize = 0;
    while i < monitors.len()
        invariant
            i <= monitors@.len(),
            keys@ == reading_keys(monitors@).take(i as int),
        decreases monitors@.len() - i,
    {
        keys.push((monitors[i].bounds_px.y, monitors[i].bounds_px.x));
        i += 1;
    }
    assert(keys@ =~= reading_keys(monitors@));
    let order = order::stable_order(&keys);
    let mut out: Vec<MonitorInfo> = Vec::new();
    let mut k: usize = 0;
    while k < order.len()
        invariant
            k <= order@.len(),
            order@.len() == monitors@.len(),
            forall|a: int| 0 <= a < order@.len() ==> (#[trigger] order@[a]) < monitors@.len(),
            out@ == order::picked(monitors@, order@).take(k as int),
        decreases order@.len() - k,
    {
        let at: usize = order[k];
        out.push(monitors[at].clone());
        k += 1;
    }
    assert(out@ =~= order::picked(monitors@, order@));
    assert forall|i: int| 0 <= i < out@.len() implies monitors@.contains(#[trigger] out@[i]) by {
        assert(out@[i] == monitors@[order@[i] as int]);
    }
    out
}

/// Sorts `monitors` in place into reading order.
pub fn sort_monitors_reading_order(monitors: &mut Vec<MonitorInfo>)
    ensures
        in_reading_order(final(monitors)@, old(monitors)@),
{
    let sorted = reading_order(monitors.as_slice());
    *monitors = sorted;
}

/// A connected monitor is found by its name, as long as no two have the same.
pub proof fn law_monitor_is_found_by_its_name(live: Seq<MonitorInfo>, k: int)
    requires
        0 <= k < live.len(),
        forall|a: int, b: int|
            0 <= a < b < live.len() ==> (#[trigger] live[a]).device_name@ != (
            #[trigger] live[b]).device_name@,
    ensures
        live_monitor(live, live[k].device_name@) == Some(live[k]),
{
    lemma_live_monitor(live, live[k].device_name@);
    let found = live_monitor(live, live[k].device_name@);
    if let Some(m) = found {
        let j = choose|j: int| 0 <= j < live.len() && live[j] == m;
        assert(live[j].device_name@ == live[k].device_name@);
    }
}

/// Reading order is from top to bottom, and from left to right where the tops are level. It holds
/// the very monitors that were to be put in order.
pub proof fn law_reading_order_is_rows_first(sorted: Seq<MonitorInfo>, monitors: Seq<MonitorInfo>)
    requires
        in_reading_order(sorted, monitors),
        monitors.len() <= usize::MAX,
    ensures
        sorted.len() == monitors.len(),
        forall|i: int| 0 <= i < monitors.len() ==> sorted.contains(#[trigger] monitors[i]),
        forall|i: int| 0 <= i < sorted.len() ==> monitors.contains(#[trigger] sorted[i]),
        forall|a: int, b: int|
            0 <= a < b < sorted.len() ==> {
                let (p, q) = ((#[trigger] sorted[a]).bounds_px, (#[trigger] sorted[b]).bounds_px);
                p.y < q.y || (p.y == q.y && p.x <= q.x)
            },
{
    let keys = reading_keys(monitors);
    let o = choose|o: Seq<usize>| #[trigger]
        order::is_stable_order(o, keys) && sorted == order::picked(monitors, o);
    order::lemma_stable_order_distinct(o, keys);
    order::lemma_order_is_complete(o, monitors.len());
    assert forall|i: int| 0 <= i < monitors.len() implies sorted.contains(
        #[trigger] monitors[i],
    ) by {
        assert(o.contains(i as usize));
        let j = choose|j: int| 0 <= j < o.len() && o[j] == i as usize;
        assert(sorted[j] == monitors[i]);
    }
    assert forall|i: int| 0 <= i < sorted.len() implies monitors.contains(
        #[trigger] sorted[i],
    ) by {
        assert(monitors[o[i] as int] == sorted[i]);
    }
    assert forall|a: int, b: int| 0 <= a < b < sorted.len() implies {
        let (p, q) = ((#[trigger] sorted[a]).bounds_px, (#[trigger] sorted[b]).bounds_px);
        p.y < q.y || (p.y == q.y && p.x <= q.x)
    } by {
        assert(order::stable_before(keys, o[a] as int, o[b] as int));
        assert(sorted[a] == monitors[o[a] as int] && sorted[b] == monitors[o[b] as int]);
    }
}

} // verus!
