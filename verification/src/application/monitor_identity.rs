//! The same monitors under other names.
//!
//! Windows may hand out its device names anew, so that a saved name means another monitor. This
//! module finds out which monitor is which, and carries the new names into everything saved.

use vstd::prelude::*;

use crate::application::monitor_watch_service;
use crate::counting;
use crate::domain::config::AppConfig;
use crate::domain::monitor::{MonitorInfo, SavedMonitor};
use crate::domain::placement::PixelRect;
use crate::domain::workset::{FixedParkingSlot, ManagedWindow, SubScreen, Workset};
use crate::order;
use crate::text;

verus! {

/// What identifies a connected monitor.
#[derive(Clone, Debug)]
pub struct LiveMonitor {
    pub device_name: String,
    /// The path of the device, which stays with the hardware. Not always known.
    pub device_path: Option<String>,
    pub bounds_px: PixelRect,
}

// ---------------------------------------------------------------------------
// Old names and new ones
// ---------------------------------------------------------------------------

/// New names by old ones.
#[derive(Clone, Debug)]
pub struct RenameMap {
    pub pairs: Vec<(String, String)>,
}

/// The mapping that a list of pairs writes down.
pub open spec fn mapping(pairs: Seq<(String, String)>) -> Map<Seq<char>, Seq<char>>
    decreases pairs.len(),
{
    if pairs.len() == 0 {
        Map::empty()
    } else {
        mapping(pairs.drop_last()).insert(pairs.last().0@, pairs.last().1@)
    }
}

/// No old name stands twice.
pub open spec fn distinct_names(pairs: Seq<(String, String)>) -> bool {
    forall|i: int, j: int|
        0 <= i < j < pairs.len() ==> (#[trigger] pairs[i]).0@ != (#[trigger] pairs[j]).0@
}

impl View for RenameMap {
    type V = Map<Seq<char>, Seq<char>>;

    open spec fn view(&self) -> Map<Seq<char>, Seq<char>> {
        mapping(self.pairs@)
    }
}

proof fn lemma_mapping(pairs: Seq<(String, String)>)
    requires
        distinct_names(pairs),
    ensures
        mapping(pairs).dom().finite(),
        mapping(pairs).dom().len() == pairs.len(),
        forall|i: int|
            0 <= i < pairs.len() ==> mapping(pairs).contains_key((#[trigger] pairs[i]).0@)
                && mapping(pairs)[pairs[i].0@] == pairs[i].1@,
        forall|k: Seq<char>| #[trigger]
            mapping(pairs).contains_key(k) ==> exists|i: int|
                0 <= i < pairs.len() && (#[trigger] pairs[i]).0@ == k,
    decreases pairs.len(),
{
    if pairs.len() > 0 {
        let rest = pairs.drop_last();
        assert forall|i: int, j: int| 0 <= i < j < rest.len() implies (#[trigger] rest[i]).0@ != (
        #[trigger] rest[j]).0@ by {
            assert(rest[i] == pairs[i] && rest[j] == pairs[j]);
        }
        lemma_mapping(rest);
        let last = pairs[pairs.len() - 1];
        assert(!mapping(rest).contains_key(last.0@)) by {
            if mapping(rest).contains_key(last.0@) {
                let i = choose|i: int| 0 <= i < rest.len() && (#[trigger] rest[i]).0@ == last.0@;
                assert(rest[i] == pairs[i]);
            }
        }
        assert(mapping(pairs).dom() =~= mapping(rest).dom().insert(last.0@));
        assert forall|i: int| 0 <= i < pairs.len() implies mapping(pairs).contains_key(
            (#[trigger] pairs[i]).0@,
        ) && mapping(pairs)[pairs[i].0@] == pairs[i].1@ by {
            if i < rest.len() {
                assert(rest[i] == pairs[i]);
            }
        }
        assert forall|k: Seq<char>| #[trigger] mapping(pairs).contains_key(k) implies exists|i: int|
            0 <= i < pairs.len() && (#[trigger] pairs[i]).0@ == k by {
            if k == last.0@ {
                assert(pairs[pairs.len() - 1].0@ == k);
            } else {
                let i = choose|i: int| 0 <= i < rest.len() && (#[trigger] rest[i]).0@ == k;
                assert(pairs[i].0@ == k);
            }
        }
    } else {
        assert(mapping(pairs).dom() =~= Set::<Seq<char>>::empty());
    }
}

impl RenameMap {
    pub open spec fn wf(self) -> bool {
        distinct_names(self.pairs@)
    }

    pub fn new() -> (r: RenameMap)
        ensures
            r.wf(),
            r@ == Map::<Seq<char>, Seq<char>>::empty(),
    {
        RenameMap { pairs: Vec::new() }
    }

    /// A map of the pairs given, of which a later one takes the place of an earlier one.
    pub fn from_pairs(pairs: Vec<(String, String)>) -> (r: RenameMap)
        ensures
            r.wf(),
            r@ == mapping(pairs@),
    {
        let mut out = RenameMap::new();
        let mut i: usize = 0;
        while i < pairs.len()
            invariant
                i <= pairs@.len(),
                out.wf(),
                out@ == mapping(pairs@.take(i as int)),
            decreases pairs@.len() - i,
        {
            proof {
                assert(pairs@.take(i + 1).drop_last() =~= pairs@.take(i as int));
                assert(pairs@.take(i + 1).last() == pairs@[i as int]);
            }
            out.insert(pairs[i].0.clone(), pairs[i].1.clone());
            i += 1;
        }
        assert(pairs@.take(pairs@.len() as int) =~= pairs@);
        out
    }

    fn position(&self, name: &str) -> (r: Option<usize>)
        ensures
            match r {
                Some(i) => i < self.pairs@.len() && self.pairs@[i as int].0@ == name@,
                None => forall|i: int|
                    0 <= i < self.pairs@.len() ==> (#[trigger] self.pairs@[i]).0@ != name@,
            },
    {
        let mut i: usize = 0;
        while i < self.pairs.len()
            invariant
                i <= self.pairs@.len(),
                forall|k: int| 0 <= k < i ==> (#[trigger] self.pairs@[k]).0@ != name@,
            decreases self.pairs@.len() - i,
        {
            if text::same_text(self.pairs[i].0.as_str(), name) {
                return Some(i);
            }
            i += 1;
        }
        None
    }

    pub fn insert(&mut self, old_name: String, new_name: String)
        requires
            old(self).wf(),
        ensures
            final(self).wf(),
            final(self)@ == old(self)@.insert(old_name@, new_name@),
    {
        let ghost before = self.pairs@;
        let ghost k = old_name@;
        let ghost v = new_name@;
        match self.position(old_name.as_str()) {
            Some(i) => {
                self.pairs[i] = (old_name, new_name);
                proof {
                    lemma_mapping(before);
                    let now = self.pairs@;
                    assert forall|a: int, b: int| 0 <= a < b < now.len() implies (
                    #[trigger] now[a]).0@ != (#[trigger] now[b]).0@ by {
                        assert(before[a].0@ == now[a].0@);
                        assert(before[b].0@ == now[b].0@);
                    }
                    lemma_mapping(now);
                    assert forall|n: Seq<char>| mapping(now).contains_key(n) == mapping(
                        before,
                    ).insert(k, v).contains_key(n) by {
                        if mapping(before).contains_key(n) {
                            let j = choose|j: int|
                                0 <= j < before.len() && (#[trigger] before[j]).0@ == n;
                            assert(now[j].0@ == n);
                        }
                        if mapping(now).contains_key(n) {
                            let j = choose|j: int|
                                0 <= j < now.len() && (#[trigger] now[j]).0@ == n;
                            assert(before[j].0@ == n);
                        }
                        assert(now[i as int].0@ == k);
                    }
                    assert forall|n: Seq<char>| #[trigger]
                        mapping(now).contains_key(n) implies mapping(now)[n] == mapping(
                        before,
                    ).insert(k, v)[n] by {
                        let j = choose|j: int| 0 <= j < now.len() && (#[trigger] now[j]).0@ == n;
                        if j == i {
                            assert(n == k);
                        } else {
                            assert(before[j] == now[j]);
                            assert(before[i as int].0@ == k);
                        }
                    }
                    assert(mapping(now) =~= mapping(before).insert(k, v));
                }
            },
            None => {
                self.pairs.push((old_name, new_name));
                assert(self.pairs@.drop_last() =~= before);
            },
        }
    }

    pub fn get(&self, name: &str) -> (r: Option<&String>)
        requires
            self.wf(),
        ensures
            match r {
                Some(new_name) => self@.contains_key(name@) && self@[name@] == new_name@,
                None => !self@.contains_key(name@),
            },
    {
        proof {
            lemma_mapping(self.pairs@);
        }
        match self.position(name) {
            Some(i) => Some(&self.pairs[i].1),
            None => None,
        }
    }

    pub fn contains_key(&self, name: &str) -> (r: bool)
        requires
            self.wf(),
        ensures
            r == self@.contains_key(name@),
    {
        self.get(name).is_some()
    }

    pub fn len(&self) -> (r: usize)
        requires
            self.wf(),
        ensures
            r == self@.dom().len(),
    {
        proof {
            lemma_mapping(self.pairs@);
        }
        self.pairs.len()
    }

    pub fn is_empty(&self) -> (r: bool)
        requires
            self.wf(),
        ensures
            r == (self@ == Map::<Seq<char>, Seq<char>>::empty()),
    {
        proof {
            lemma_mapping(self.pairs@);
            if self.pairs@.len() > 0 {
                assert(self@.contains_key(self.pairs@[0].0@));
            }
        }
        self.pairs.len() == 0
    }
}

// ---------------------------------------------------------------------------
// Which monitor is which
// ---------------------------------------------------------------------------

/// Both have a path, and it is the same.
pub open spec fn same_path(s: SavedMonitor, l: LiveMonitor) -> bool {
    s.device_path is Some && text::opt_text(s.device_path) == text::opt_text(l.device_path)
}

/// A connected monitor of that name is spoken for.
pub open spec fn taken(pairs: Seq<(Seq<char>, Seq<char>)>, name: Seq<char>) -> bool {
    exists|i: int| 0 <= i < pairs.len() && (#[trigger] pairs[i]).1 == name
}

/// A saved monitor of that id has been found.
pub open spec fn matched(pairs: Seq<(Seq<char>, Seq<char>)>, id: Seq<char>) -> bool {
    exists|i: int| 0 <= i < pairs.len() && (#[trigger] pairs[i]).0 == id
}

pub open spec fn path_test(
    s: SavedMonitor,
    live: Seq<LiveMonitor>,
    pairs: Seq<(Seq<char>, Seq<char>)>,
) -> spec_fn(int) -> bool {
    |i: int| same_path(s, live[i]) && !taken(pairs, live[i].device_name@)
}

/// How often a rectangle occurs.
pub open spec fn occurrences(rects: Seq<PixelRect>, r: PixelRect) -> nat
    decreases rects.len(),
{
    if rects.len() == 0 {
        0
    } else {
        occurrences(rects.drop_last(), r) + if rects.last() == r {
            1nat
        } else {
            0nat
        }
    }
}

pub open spec fn saved_bounds(saved: Seq<SavedMonitor>) -> Seq<PixelRect> {
    saved.map_values(|s: SavedMonitor| s.bounds_px)
}

pub open spec fn live_bounds(live: Seq<LiveMonitor>) -> Seq<PixelRect> {
    live.map_values(|l: LiveMonitor| l.bounds_px)
}

pub open spec fn bounds_test(
    s: SavedMonitor,
    live: Seq<LiveMonitor>,
    pairs: Seq<(Seq<char>, Seq<char>)>,
) -> spec_fn(int) -> bool {
    |i: int|
        live[i].bounds_px == s.bounds_px && occurrences(live_bounds(live), live[i].bounds_px) == 1
            && !taken(pairs, live[i].device_name@)
}

pub open spec fn paired_with(
    pairs: Seq<(Seq<char>, Seq<char>)>,
    s: SavedMonitor,
    live: Seq<LiveMonitor>,
    hit: Option<int>,
) -> Seq<(Seq<char>, Seq<char>)> {
    match hit {
        Some(i) => pairs.push((s.stable_id@, live[i].device_name@)),
        None => pairs,
    }
}

/// The first `n` saved monitors, each with the first connected one that has its path and is not
/// spoken for.
pub open spec fn paired_by_path(saved: Seq<SavedMonitor>, live: Seq<LiveMonitor>, n: nat) -> Seq<
    (Seq<char>, Seq<char>),
>
    decreases n,
{
    if n == 0 {
        Seq::empty()
    } else {
        let before = paired_by_path(saved, live, (n - 1) as nat);
        let s = saved[n - 1];
        paired_with(before, s, live, order::first_where(live.len(), path_test(s, live, before)))
    }
}

/// All pairs by path, and then the first `n` saved monitors that have not been found, each with
/// the connected one at the same place, where no other monitor has that place.
pub open spec fn paired(saved: Seq<SavedMonitor>, live: Seq<LiveMonitor>, n: nat) -> Seq<
    (Seq<char>, Seq<char>),
>
    decreases n,
{
    if n == 0 {
        paired_by_path(saved, live, saved.len())
    } else {
        let before = paired(saved, live, (n - 1) as nat);
        let s = saved[n - 1];
        if matched(before, s.stable_id@) || occurrences(saved_bounds(saved), s.bounds_px) != 1 {
            before
        } else {
            paired_with(
                before,
                s,
                live,
                order::first_where(live.len(), bounds_test(s, live, before)),
            )
        }
    }
}

/// The pairs in which the name has changed.
pub open spec fn renames_of(pairs: Seq<(Seq<char>, Seq<char>)>) -> Map<Seq<char>, Seq<char>>
    decreases pairs.len(),
{
    if pairs.len() == 0 {
        Map::empty()
    } else {
        let before = renames_of(pairs.drop_last());
        let p = pairs.last();
        if p.0 == p.1 {
            before
        } else {
            before.insert(p.0, p.1)
        }
    }
}

/// Some old name is given the new name `name`.
pub open spec fn given(m: Map<Seq<char>, Seq<char>>, name: Seq<char>) -> bool {
    exists|k: Seq<char>| #[trigger] m.contains_key(k) && m[k] == name
}

/// Some saved monitor that was not found would share its name with one that was.
pub open spec fn collides(
    saved: Seq<SavedMonitor>,
    pairs: Seq<(Seq<char>, Seq<char>)>,
    m: Map<Seq<char>, Seq<char>>,
) -> bool {
    exists|i: int|
        0 <= i < saved.len() && !matched(pairs, (#[trigger] saved[i]).stable_id@) && given(
            m,
            saved[i].stable_id@,
        )
}

/// The new names by the old ones.
pub open spec fn plan(saved: Seq<SavedMonitor>, live: Seq<LiveMonitor>) -> Map<
    Seq<char>,
    Seq<char>,
> {
    let pairs = paired(saved, live, saved.len());
    let m = renames_of(pairs);
    if collides(saved, pairs, m) {
        Map::empty()
    } else {
        m
    }
}

pub open spec fn pairs_view(pairs: Seq<(String, String)>) -> Seq<(Seq<char>, Seq<char>)> {
    pairs.map_values(|p: (String, String)| (p.0@, p.1@))
}

fn is_taken(pairs: &Vec<(String, String)>, name: &str) -> (r: bool)
    ensures
        r == taken(pairs_view(pairs@), name@),
{
    let ghost pv = pairs_view(pairs@);
    let mut i: usize = 0;
    while i < pairs.len()
        invariant
            i <= pairs@.len(),
            pv == pairs_view(pairs@),
            forall|k: int| 0 <= k < i ==> (#[trigger] pv[k]).1 != name@,
        decreases pairs@.len() - i,
    {
        assert(pv[i as int].1 == pairs@[i as int].1@);
        if text::same_text(pairs[i].1.as_str(), name) {
            return true;
        }
        i += 1;
    }
    false
}

fn is_matched(pairs: &Vec<(String, String)>, id: &str) -> (r: bool)
    ensures
        r == matched(pairs_view(pairs@), id@),
{
    let ghost pv = pairs_view(pairs@);
    let mut i: usize = 0;
    while i < pairs.len()
        invariant
            i <= pairs@.len(),
            pv == pairs_view(pairs@),
            forall|k: int| 0 <= k < i ==> (#[trigger] pv[k]).0 != id@,
        decreases pairs@.len() - i,
    {
        assert(pv[i as int].0 == pairs@[i as int].0@);
        if text::same_text(pairs[i].0.as_str(), id) {
            return true;
        }
        i += 1;
    }
    false
}

fn has_same_path(s: &SavedMonitor, l: &LiveMonitor) -> (r: bool)
    ensures
        r == same_path(*s, *l),
{
    match (&s.device_path, &l.device_path) {
        (Some(a), Some(b)) => text::same_text(a.as_str(), b.as_str()),
        _ => false,
    }
}

fn find_by_path(s: &SavedMonitor, live: &[LiveMonitor], pairs: &Vec<(String, String)>) -> (r: Option<
    usize,
>)
    ensures
        match r {
            Some(i) => i < live@.len() && order::first_where(
                live@.len(),
                path_test(*s, live@, pairs_view(pairs@)),
            ) == Some(i as int),
            None => order::first_where(live@.len(), path_test(*s, live@, pairs_view(pairs@))) is None,
        },
{
    let ghost test = path_test(*s, live@, pairs_view(pairs@));
    let mut i: usize = 0;
    while i < live.len()
        invariant
            i <= live@.len(),
            test == path_test(*s, live@, pairs_view(pairs@)),
            forall|k: int| 0 <= k < i ==> !#[trigger] test(k),
        decreases live@.len() - i,
    {
        if has_same_path(s, &live[i]) && !is_taken(pairs, live[i].device_name.as_str()) {
            proof {
                order::lemma_first_where_some(live@.len(), test, i as int);
            }
            return Some(i);
        }
        i += 1;
    }
    proof {
        order::lemma_first_where_none(live@.len(), test);
    }
    None
}

fn count_rect(rects: &Vec<PixelRect>, r: PixelRect) -> (n: usize)
    ensures
        n == occurrences(rects@, r),
        n <= rects@.len(),
{
    let mut n: usize = 0;
    let mut i: usize = 0;
    while i < rects.len()
        invariant
            n <= i <= rects@.len(),
            n == occurrences(rects@.take(i as int), r),
        decreases rects@.len() - i,
    {
        proof {
            assert(rects@.take(i + 1).drop_last() =~= rects@.take(i as int));
            assert(rects@.take(i + 1).last() == rects@[i as int]);
        }
        if rects[i] == r {
            n += 1;
        }
        i += 1;
    }
    assert(rects@.take(rects@.len() as int) =~= rects@);
    n
}

fn find_by_bounds(
    s: &SavedMonitor,
    live: &[LiveMonitor],
    bounds: &Vec<PixelRect>,
    pairs: &Vec<(String, String)>,
) -> (r: Option<usize>)
    requires
        bounds@ == live_bounds(live@),
    ensures
        match r {
            Some(i) => i < live@.len() && order::first_where(
                live@.len(),
                bounds_test(*s, live@, pairs_view(pairs@)),
            ) == Some(i as int),
            None => order::first_where(
                live@.len(),
                bounds_test(*s, live@, pairs_view(pairs@)),
            ) is None,
        },
{
    let ghost test = bounds_test(*s, live@, pairs_view(pairs@));
    let mut i: usize = 0;
    while i < live.len()
        invariant
            i <= live@.len(),
            bounds@ == live_bounds(live@),
            test == bounds_test(*s, live@, pairs_view(pairs@)),
            forall|k: int| 0 <= k < i ==> !#[trigger] test(k),
        decreases live@.len() - i,
    {
        if live[i].bounds_px == s.bounds_px && count_rect(bounds, live[i].bounds_px) == 1
            && !is_taken(pairs, live[i].device_name.as_str()) {
            proof {
                order::lemma_first_where_some(live@.len(), test, i as int);
            }
            return Some(i);
        }
        i += 1;
    }
    proof {
        order::lemma_first_where_none(live@.len(), test);
    }
    None
}

fn pair_up(saved: &[SavedMonitor], live: &[LiveMonitor]) -> (r: Vec<(String, String)>)
    ensures
        pairs_view(r@) == paired(saved@, live@, saved@.len()),
{
    let mut pairs: Vec<(String, String)> = Vec::new();
    let mut own: Vec<PixelRect> = Vec::new();
    let mut i: usize = 0;
    assert(pairs_view(pairs@) =~= paired_by_path(saved@, live@, 0));
    assert(own@ =~= saved_bounds(saved@).take(0));
    while i < saved.len()
        invariant
            i <= saved@.len(),
            pairs_view(pairs@) == paired_by_path(saved@, live@, i as nat),
            own@ == saved_bounds(saved@).take(i as int),
        decreases saved@.len() - i,
    {
        let ghost before = pairs@;
        if let Some(k) = find_by_path(&saved[i], live, &pairs) {
            pairs.push((saved[i].stable_id.clone(), live[k].device_name.clone()));
            assert(pairs_view(pairs@) =~= pairs_view(before).push(
                (saved@[i as int].stable_id@, live@[k as int].device_name@),
            ));
        }
        own.push(saved[i].bounds_px);
        assert(own@ =~= saved_bounds(saved@).take(i + 1));
        i += 1;
    }
    assert(own@ =~= saved_bounds(saved@));
    let mut others: Vec<PixelRect> = Vec::new();
    let mut j: usize = 0;
    while j < live.len()
        invariant
            j <= live@.len(),
            others@ == live_bounds(live@).take(j as int),
        decreases live@.len() - j,
    {
        others.push(live[j].bounds_px);
        assert(others@ =~= live_bounds(live@).take(j + 1));
        j += 1;
    }
    assert(others@ =~= live_bounds(live@));
    let mut n: usize = 0;
    while n < saved.len()
        invariant
            n <= saved@.len(),
            own@ == saved_bounds(saved@),
            others@ == live_bounds(live@),
            pairs_view(pairs@) == paired(saved@, live@, n as nat),
        decreases saved@.len() - n,
    {
        let ghost before = pairs@;
        if !is_matched(&pairs, saved[n].stable_id.as_str()) && count_rect(
            &own,
            saved[n].bounds_px,
        ) == 1 {
            if let Some(k) = find_by_bounds(&saved[n], live, &others, &pairs) {
                pairs.push((saved[n].stable_id.clone(), live[k].device_name.clone()));
                assert(pairs_view(pairs@) =~= pairs_view(before).push(
                    (saved@[n as int].stable_id@, live@[k as int].device_name@),
                ));
            }
        }
        n += 1;
    }
    pairs
}

fn is_given(renames: &RenameMap, name: &str) -> (r: bool)
    requires
        renames.wf(),
    ensures
        r == given(renames@, name@),
{
    let ghost pairs = renames.pairs@;
    proof {
        lemma_mapping(pairs);
    }
    let mut i: usize = 0;
    while i < renames.pairs.len()
        invariant
            i <= pairs.len(),
            pairs == renames.pairs@,
            renames@ == mapping(pairs),
            forall|k: int|
                0 <= k < pairs.len() ==> mapping(pairs).contains_key((#[trigger] pairs[k]).0@)
                    && mapping(pairs)[pairs[k].0@] == pairs[k].1@,
            forall|k: int| 0 <= k < i ==> (#[trigger] pairs[k]).1@ != name@,
        decreases pairs.len() - i,
    {
        if text::same_text(renames.pairs[i].1.as_str(), name) {
            assert(renames@.contains_key(pairs[i as int].0@));
            return true;
        }
        i += 1;
    }
    proof {
        if given(renames@, name@) {
            let k = choose|k: Seq<char>| #[trigger] renames@.contains_key(k) && renames@[k] == name@;
            let j = choose|j: int| 0 <= j < pairs.len() && (#[trigger] pairs[j]).0@ == k;
            assert(pairs[j].1@ == name@);
        }
    }
    false
}

/// Finds out under which new names the saved monitors are connected. A monitor is known by the
/// path of its device or else by its place, where that is unmistakable. Where the new names would
/// get in the way of a monitor that was not found, nothing is renamed at all.
pub fn plan_remap(saved: &[SavedMonitor], live: &[LiveMonitor]) -> (r: RenameMap)
    ensures
        r.wf(),
        r@ == plan(saved@, live@),
{
    let pairs = pair_up(saved, live);
    let ghost pv = pairs_view(pairs@);
    let mut renames = RenameMap::new();
    let mut i: usize = 0;
    while i < pairs.len()
        invariant
            i <= pairs@.len(),
            pv == pairs_view(pairs@),
            renames.wf(),
            renames@ == renames_of(pv.take(i as int)),
        decreases pairs@.len() - i,
    {
        proof {
            assert(pv.take(i + 1).drop_last() =~= pv.take(i as int));
            assert(pv.take(i + 1).last() == (pairs@[i as int].0@, pairs@[i as int].1@));
        }
        if !text::same_text(pairs[i].0.as_str(), pairs[i].1.as_str()) {
            renames.insert(pairs[i].0.clone(), pairs[i].1.clone());
        }
        i += 1;
    }
    assert(pv.take(pv.len() as int) =~= pv);
    let mut k: usize = 0;
    while k < saved.len()
        invariant
            k <= saved@.len(),
            pv == pairs_view(pairs@),
            pv == paired(saved@, live@, saved@.len()),
            renames.wf(),
            renames@ == renames_of(pv),
            forall|j: int|
                0 <= j < k ==> matched(pv, (#[trigger] saved@[j]).stable_id@) || !given(
                    renames@,
                    saved@[j].stable_id@,
                ),
        decreases saved@.len() - k,
    {
        if !is_matched(&pairs, saved[k].stable_id.as_str()) && is_given(
            &renames,
            saved[k].stable_id.as_str(),
        ) {
            assert(collides(saved@, pv, renames@));
            return RenameMap::new();
        }
        k += 1;
    }
    assert(!collides(saved@, pv, renames@));
    renames
}

// ---------------------------------------------------------------------------
// What holds of every plan
// ---------------------------------------------------------------------------

/// A name after the renaming.
pub open spec fn renamed(name: Seq<char>, m: Map<Seq<char>, Seq<char>>) -> Seq<char> {
    if m.contains_key(name) {
        m[name]
    } else {
        name
    }
}

pub open spec fn distinct_ids(saved: Seq<SavedMonitor>) -> bool {
    forall|i: int, j: int|
        0 <= i < j < saved.len() ==> (#[trigger] saved[i]).stable_id@ != (
        #[trigger] saved[j]).stable_id@
}

/// No connected monitor stands for two saved ones, and each pair names monitors that are there.
spec fn sound_pairs(
    pairs: Seq<(Seq<char>, Seq<char>)>,
    saved: Seq<SavedMonitor>,
    live: Seq<LiveMonitor>,
) -> bool {
    &&& forall|i: int, j: int|
        0 <= i < j < pairs.len() ==> (#[trigger] pairs[i]).1 != (#[trigger] pairs[j]).1
    &&& forall|i: int|
        0 <= i < pairs.len() ==> is_live_name(live, (#[trigger] pairs[i]).1) && is_saved_id(
            saved,
            pairs[i].0,
        )
}

pub open spec fn is_live_name(live: Seq<LiveMonitor>, name: Seq<char>) -> bool {
    exists|i: int| 0 <= i < live.len() && (#[trigger] live[i]).device_name@ == name
}

pub open spec fn is_saved_id(saved: Seq<SavedMonitor>, id: Seq<char>) -> bool {
    exists|i: int| 0 <= i < saved.len() && (#[trigger] saved[i]).stable_id@ == id
}

proof fn lemma_sound_step(
    pairs: Seq<(Seq<char>, Seq<char>)>,
    saved: Seq<SavedMonitor>,
    live: Seq<LiveMonitor>,
    n: int,
    hit: Option<int>,
)
    requires
        sound_pairs(pairs, saved, live),
        0 <= n < saved.len(),
        hit matches Some(i) ==> 0 <= i < live.len() && !taken(pairs, live[i].device_name@),
    ensures
        sound_pairs(paired_with(pairs, saved[n], live, hit), saved, live),
{
    if let Some(i) = hit {
        let now = paired_with(pairs, saved[n], live, hit);
        assert forall|a: int, b: int| 0 <= a < b < now.len() implies (#[trigger] now[a]).1 != (
        #[trigger] now[b]).1 by {
            assert(now[a] == pairs[a]);
            if b < pairs.len() {
                assert(now[b] == pairs[b]);
            } else if pairs[a].1 == live[i].device_name@ {
                assert(taken(pairs, live[i].device_name@));
            }
        }
        assert forall|a: int| 0 <= a < now.len() implies is_live_name(live, (#[trigger] now[a]).1)
            && is_saved_id(saved, now[a].0) by {
            if a < pairs.len() {
                assert(now[a] == pairs[a]);
            } else {
                assert(live[i].device_name@ == now[a].1);
                assert(saved[n].stable_id@ == now[a].0);
            }
        }
    }
}

proof fn lemma_sound_by_path(saved: Seq<SavedMonitor>, live: Seq<LiveMonitor>, n: nat)
    requires
        n <= saved.len(),
    ensures
        sound_pairs(paired_by_path(saved, live, n), saved, live),
    decreases n,
{
    if n > 0 {
        lemma_sound_by_path(saved, live, (n - 1) as nat);
        let before = paired_by_path(saved, live, (n - 1) as nat);
        let test = path_test(saved[n - 1], live, before);
        order::lemma_first_where(live.len(), test);
        lemma_sound_step(before, saved, live, n - 1, order::first_where(live.len(), test));
    }
}

proof fn lemma_sound(saved: Seq<SavedMonitor>, live: Seq<LiveMonitor>, n: nat)
    requires
        n <= saved.len(),
    ensures
        sound_pairs(paired(saved, live, n), saved, live),
    decreases n,
{
    if n == 0 {
        lemma_sound_by_path(saved, live, saved.len());
    } else {
        lemma_sound(saved, live, (n - 1) as nat);
        let before = paired(saved, live, (n - 1) as nat);
        let test = bounds_test(saved[n - 1], live, before);
        order::lemma_first_where(live.len(), test);
        lemma_sound_step(before, saved, live, n - 1, order::first_where(live.len(), test));
    }
}

/// Every renaming comes from a pair.
proof fn lemma_renames_from_pairs(pairs: Seq<(Seq<char>, Seq<char>)>)
    ensures
        forall|k: Seq<char>| #[trigger]
            renames_of(pairs).contains_key(k) ==> exists|i: int|
                0 <= i < pairs.len() && #[trigger] pairs[i] == (k, renames_of(pairs)[k]),
    decreases pairs.len(),
{
    if pairs.len() > 0 {
        let rest = pairs.drop_last();
        lemma_renames_from_pairs(rest);
        let m = renames_of(pairs);
        assert forall|k: Seq<char>| #[trigger] m.contains_key(k) implies exists|i: int|
            0 <= i < pairs.len() && #[trigger] pairs[i] == (k, m[k]) by {
            let last = pairs[pairs.len() - 1];
            if last.0 != last.1 && k == last.0 {
                assert(pairs[pairs.len() - 1] == (k, m[k]));
            } else {
                let i = choose|i: int|
                    0 <= i < rest.len() && #[trigger] rest[i] == (k, renames_of(rest)[k]);
                assert(pairs[i] == (k, m[k]));
            }
        }
    }
}

/// A plan gives only names of connected monitors, none of them twice, to saved monitors, and
/// leaves none as it was.
pub proof fn law_plan_is_one_to_one(saved: Seq<SavedMonitor>, live: Seq<LiveMonitor>)
    ensures
        ({
            let m = plan(saved, live);
            &&& forall|k: Seq<char>| #[trigger]
                m.contains_key(k) ==> is_saved_id(saved, k) && is_live_name(live, m[k])
            &&& forall|k: Seq<char>, l: Seq<char>|
                #![trigger m.contains_key(k), m.contains_key(l)]
                m.contains_key(k) && m.contains_key(l) && m[k] == m[l] ==> k == l
        }),
{
    let pairs = paired(saved, live, saved.len());
    lemma_sound(saved, live, saved.len());
    lemma_renames_from_pairs(pairs);
    let all = renames_of(pairs);
    let m = plan(saved, live);
    assert forall|k: Seq<char>| #[trigger] m.contains_key(k) implies is_saved_id(saved, k)
        && is_live_name(live, m[k]) by {
        let i = choose|i: int| 0 <= i < pairs.len() && #[trigger] pairs[i] == (k, all[k]);
        assert(is_live_name(live, pairs[i].1));
    }
    assert forall|k: Seq<char>, l: Seq<char>|
        #![trigger m.contains_key(k), m.contains_key(l)]
        m.contains_key(k) && m.contains_key(l) && m[k] == m[l] implies k == l by {
        let i = choose|i: int| 0 <= i < pairs.len() && #[trigger] pairs[i] == (k, all[k]);
        let j = choose|j: int| 0 <= j < pairs.len() && #[trigger] pairs[j] == (l, all[l]);
        if i < j {
            assert(pairs[i].1 != pairs[j].1);
        } else if j < i {
            assert(pairs[j].1 != pairs[i].1);
        }
    }
}

/// Saved monitors that had different ids have different ids after the renaming.
pub proof fn law_ids_stay_distinct(saved: Seq<SavedMonitor>, live: Seq<LiveMonitor>)
    requires
        distinct_ids(saved),
    ensures
        forall|i: int, j: int|
            0 <= i < j < saved.len() ==> renamed(
                (#[trigger] saved[i]).stable_id@,
                plan(saved, live),
            ) != renamed((#[trigger] saved[j]).stable_id@, plan(saved, live)),
{
    let pairs = paired(saved, live, saved.len());
    let all = renames_of(pairs);
    let m = plan(saved, live);
    lemma_sound(saved, live, saved.len());
    lemma_renames_from_pairs(pairs);
    law_plan_is_one_to_one(saved, live);
    assert forall|i: int, j: int| 0 <= i < j < saved.len() implies renamed(
        (#[trigger] saved[i]).stable_id@,
        m,
    ) != renamed((#[trigger] saved[j]).stable_id@, m) by {
        let a = saved[i].stable_id@;
        let b = saved[j].stable_id@;
        if m.contains_key(a) && !m.contains_key(b) && m[a] == b {
            lemma_kept_id_is_not_given(saved, live, a, b, j);
        }
        if m.contains_key(b) && !m.contains_key(a) && m[b] == a {
            lemma_kept_id_is_not_given(saved, live, b, a, i);
        }
    }
}

/// An id that is not renamed is not given to another monitor either.
proof fn lemma_kept_id_is_not_given(
    saved: Seq<SavedMonitor>,
    live: Seq<LiveMonitor>,
    a: Seq<char>,
    b: Seq<char>,
    j: int,
)
    requires
        0 <= j < saved.len(),
        saved[j].stable_id@ == b,
        plan(saved, live).contains_key(a),
        !plan(saved, live).contains_key(b),
        a != b,
    ensures
        plan(saved, live)[a] != b,
{
    if plan(saved, live)[a] == b {
        let pairs = paired(saved, live, saved.len());
        let all = renames_of(pairs);
        lemma_sound(saved, live, saved.len());
        lemma_renames_from_pairs(pairs);
        assert(given(all, b)) by {
            assert(all.contains_key(a));
        }
        assert(!collides(saved, pairs, all));
        assert(matched(pairs, saved[j].stable_id@));
        let q = choose|q: int| 0 <= q < pairs.len() && (#[trigger] pairs[q]).0 == b;
        let p = choose|p: int| 0 <= p < pairs.len() && #[trigger] pairs[p] == (a, all[a]);
        lemma_unrenamed_pair(pairs, q);
        if p < q {
            assert(pairs[p].1 != pairs[q].1);
        } else if q < p {
            assert(pairs[q].1 != pairs[p].1);
        }
    }
}

/// Where an id is not renamed, the pairs that it stands in keep the name.
proof fn lemma_unrenamed_pair(pairs: Seq<(Seq<char>, Seq<char>)>, q: int)
    requires
        0 <= q < pairs.len(),
        !renames_of(pairs).contains_key(pairs[q].0),
    ensures
        pairs[q].0 == pairs[q].1,
    decreases pairs.len(),
{
    if q < pairs.len() - 1 {
        assert(pairs.drop_last()[q] == pairs[q]);
        lemma_unrenamed_pair(pairs.drop_last(), q);
    }
}

/// The saved monitors under their new ids, each otherwise as it was.
pub open spec fn carries(
    now: Seq<SavedMonitor>,
    before: Seq<SavedMonitor>,
    m: Map<Seq<char>, Seq<char>>,
) -> bool {
    &&& now.len() == before.len()
    &&& forall|i: int|
        0 <= i < now.len() ==> {
            &&& (#[trigger] now[i]).stable_id@ == renamed(before[i].stable_id@, m)
            &&& now[i].device_path == before[i].device_path
            &&& now[i].bounds_px == before[i].bounds_px
        }
}

spec fn renamed_pairs(
    pairs: Seq<(Seq<char>, Seq<char>)>,
    m: Map<Seq<char>, Seq<char>>,
) -> Seq<(Seq<char>, Seq<char>)> {
    pairs.map_values(|p: (Seq<char>, Seq<char>)| (renamed(p.0, m), p.1))
}

proof fn lemma_taken_renamed(
    pairs: Seq<(Seq<char>, Seq<char>)>,
    m: Map<Seq<char>, Seq<char>>,
)
    ensures
        forall|name: Seq<char>|
            taken(renamed_pairs(pairs, m), name) == #[trigger] taken(pairs, name),
{
    let now = renamed_pairs(pairs, m);
    assert forall|name: Seq<char>| taken(now, name) == #[trigger] taken(pairs, name) by {
        if taken(now, name) {
            let i = choose|i: int| 0 <= i < now.len() && (#[trigger] now[i]).1 == name;
            assert(pairs[i].1 == name);
        }
        if taken(pairs, name) {
            let i = choose|i: int| 0 <= i < pairs.len() && (#[trigger] pairs[i]).1 == name;
            assert(now[i].1 == name);
        }
    }
}

proof fn lemma_first_where_same(n: nat, p: spec_fn(int) -> bool, q: spec_fn(int) -> bool)
    requires
        forall|i: int| 0 <= i < n ==> #[trigger] p(i) == q(i),
    ensures
        order::first_where(n, p) == order::first_where(n, q),
    decreases n,
{
    if n > 0 {
        lemma_first_where_same((n - 1) as nat, p, q);
        assert(p(n - 1) == q(n - 1));
    }
}

proof fn lemma_paired_again_by_path(
    saved: Seq<SavedMonitor>,
    now: Seq<SavedMonitor>,
    live: Seq<LiveMonitor>,
    m: Map<Seq<char>, Seq<char>>,
    n: nat,
)
    requires
        carries(now, saved, m),
        n <= saved.len(),
    ensures
        paired_by_path(now, live, n) == renamed_pairs(paired_by_path(saved, live, n), m),
    decreases n,
{
    if n > 0 {
        lemma_paired_again_by_path(saved, now, live, m, (n - 1) as nat);
        let before = paired_by_path(saved, live, (n - 1) as nat);
        let again = paired_by_path(now, live, (n - 1) as nat);
        let s = saved[n - 1];
        let t = now[n - 1];
        lemma_taken_renamed(before, m);
        lemma_first_where_same(live.len(), path_test(s, live, before), path_test(t, live, again));
        assert(paired_by_path(now, live, n) =~= renamed_pairs(
            paired_by_path(saved, live, n),
            m,
        ));
    } else {
        assert(paired_by_path(now, live, n) =~= renamed_pairs(
            paired_by_path(saved, live, n),
            m,
        ));
    }
}

proof fn lemma_paired_again(
    saved: Seq<SavedMonitor>,
    now: Seq<SavedMonitor>,
    live: Seq<LiveMonitor>,
    n: nat,
)
    requires
        distinct_ids(saved),
        carries(now, saved, plan(saved, live)),
        n <= saved.len(),
    ensures
        paired(now, live, n) == renamed_pairs(paired(saved, live, n), plan(saved, live)),
    decreases n,
{
    let m = plan(saved, live);
    if n == 0 {
        lemma_paired_again_by_path(saved, now, live, m, saved.len());
    } else {
        lemma_paired_again(saved, now, live, (n - 1) as nat);
        let before = paired(saved, live, (n - 1) as nat);
        let again = paired(now, live, (n - 1) as nat);
        let s = saved[n - 1];
        let t = now[n - 1];
        lemma_taken_renamed(before, m);
        lemma_first_where_same(
            live.len(),
            bounds_test(s, live, before),
            bounds_test(t, live, again),
        );
        assert(saved_bounds(now) =~= saved_bounds(saved));
        law_ids_stay_distinct(saved, live);
        lemma_sound(saved, live, (n - 1) as nat);
        assert(matched(again, t.stable_id@) == matched(before, s.stable_id@)) by {
            if matched(before, s.stable_id@) {
                let i = choose|i: int| 0 <= i < before.len() && (#[trigger] before[i]).0 == s.stable_id@;
                assert(again[i].0 == t.stable_id@);
            }
            if matched(again, t.stable_id@) {
                let i = choose|i: int| 0 <= i < again.len() && (#[trigger] again[i]).0 == t.stable_id@;
                assert(again[i].0 == renamed(before[i].0, m));
                assert(is_saved_id(saved, before[i].0));
                let k = choose|k: int|
                    0 <= k < saved.len() && (#[trigger] saved[k]).stable_id@ == before[i].0;
                if k < n - 1 {
                    assert(renamed(saved[k].stable_id@, m) != renamed(saved[n - 1].stable_id@, m));
                } else if k > n - 1 {
                    assert(renamed(saved[n - 1].stable_id@, m) != renamed(saved[k].stable_id@, m));
                }
                assert(before[i].0 == s.stable_id@);
            }
        }
        assert(paired(now, live, n) =~= renamed_pairs(paired(saved, live, n), m));
    }
}

/// The ids in the pairs are different where those of the saved monitors are.
spec fn distinct_firsts(pairs: Seq<(Seq<char>, Seq<char>)>) -> bool {
    forall|i: int, j: int|
        0 <= i < j < pairs.len() ==> (#[trigger] pairs[i]).0 != (#[trigger] pairs[j]).0
}

spec fn from_first(pairs: Seq<(Seq<char>, Seq<char>)>, saved: Seq<SavedMonitor>, n: int) -> bool {
    forall|i: int|
        0 <= i < pairs.len() ==> exists|k: int|
            0 <= k < n && (#[trigger] saved[k]).stable_id@ == (#[trigger] pairs[i]).0
}

proof fn lemma_firsts_by_path(saved: Seq<SavedMonitor>, live: Seq<LiveMonitor>, n: nat)
    requires
        distinct_ids(saved),
        n <= saved.len(),
    ensures
        distinct_firsts(paired_by_path(saved, live, n)),
        from_first(paired_by_path(saved, live, n), saved, n as int),
    decreases n,
{
    if n > 0 {
        lemma_firsts_by_path(saved, live, (n - 1) as nat);
        let before = paired_by_path(saved, live, (n - 1) as nat);
        let now = paired_by_path(saved, live, n);
        assert forall|i: int| 0 <= i < now.len() implies exists|k: int|
            0 <= k < n && (#[trigger] saved[k]).stable_id@ == (#[trigger] now[i]).0 by {
            if i < before.len() {
                assert(now[i] == before[i]);
                let k = choose|k: int|
                    0 <= k < n - 1 && (#[trigger] saved[k]).stable_id@ == before[i].0;
                assert(saved[k].stable_id@ == now[i].0);
            } else {
                assert(saved[n - 1].stable_id@ == now[i].0);
            }
        }
        assert forall|i: int, j: int| 0 <= i < j < now.len() implies (#[trigger] now[i]).0 != (
        #[trigger] now[j]).0 by {
            assert(now[i] == before[i]);
            if j < before.len() {
                assert(now[j] == before[j]);
            } else {
                let k = choose|k: int|
                    0 <= k < n - 1 && (#[trigger] saved[k]).stable_id@ == before[i].0;
                assert(saved[k].stable_id@ != saved[n - 1].stable_id@);
            }
        }
    }
}

proof fn lemma_firsts(saved: Seq<SavedMonitor>, live: Seq<LiveMonitor>, n: nat)
    requires
        distinct_ids(saved),
        n <= saved.len(),
    ensures
        distinct_firsts(paired(saved, live, n)),
    decreases n,
{
    if n == 0 {
        lemma_firsts_by_path(saved, live, saved.len());
    } else {
        lemma_firsts(saved, live, (n - 1) as nat);
        let before = paired(saved, live, (n - 1) as nat);
        let now = paired(saved, live, n);
        assert forall|i: int, j: int| 0 <= i < j < now.len() implies (#[trigger] now[i]).0 != (
        #[trigger] now[j]).0 by {
            assert(now[i] == before[i]);
            if j < before.len() {
                assert(now[j] == before[j]);
            } else if before[i].0 == saved[n - 1].stable_id@ {
                assert(matched(before, saved[n - 1].stable_id@));
            }
        }
    }
}

/// Where the ids are different, each pair whose name has changed is a renaming.
proof fn lemma_pair_is_renaming(pairs: Seq<(Seq<char>, Seq<char>)>, i: int)
    requires
        distinct_firsts(pairs),
        0 <= i < pairs.len(),
    ensures
        renamed(pairs[i].0, renames_of(pairs)) == pairs[i].1,
    decreases pairs.len(),
{
    let rest = pairs.drop_last();
    let last = pairs[pairs.len() - 1];
    assert(distinct_firsts(rest)) by {
        assert forall|a: int, b: int| 0 <= a < b < rest.len() implies (#[trigger] rest[a]).0 != (
        #[trigger] rest[b]).0 by {
            assert(rest[a] == pairs[a] && rest[b] == pairs[b]);
        }
    }
    if i < rest.len() {
        lemma_pair_is_renaming(rest, i);
        assert(rest[i] == pairs[i]);
        assert(pairs[i].0 != last.0);
    } else {
        lemma_renames_from_pairs(rest);
        if renames_of(rest).contains_key(last.0) {
            let k = choose|k: int|
                0 <= k < rest.len() && #[trigger] rest[k] == (last.0, renames_of(rest)[last.0]);
            assert(pairs[k].0 == last.0);
        }
    }
}

proof fn lemma_no_renames(pairs: Seq<(Seq<char>, Seq<char>)>)
    requires
        forall|i: int| 0 <= i < pairs.len() ==> (#[trigger] pairs[i]).0 == pairs[i].1,
    ensures
        renames_of(pairs) == Map::<Seq<char>, Seq<char>>::empty(),
    decreases pairs.len(),
{
    if pairs.len() > 0 {
        assert forall|i: int| 0 <= i < pairs.drop_last().len() implies (
        #[trigger] pairs.drop_last()[i]).0 == pairs.drop_last()[i].1 by {
            assert(pairs.drop_last()[i] == pairs[i]);
        }
        lemma_no_renames(pairs.drop_last());
        assert(pairs[pairs.len() - 1].0 == pairs[pairs.len() - 1].1);
    }
}

/// Once a plan has been carried out, there is nothing left to rename.
pub proof fn law_remap_settles(
    saved: Seq<SavedMonitor>,
    now: Seq<SavedMonitor>,
    live: Seq<LiveMonitor>,
)
    requires
        distinct_ids(saved),
        carries(now, saved, plan(saved, live)),
    ensures
        plan(now, live) == Map::<Seq<char>, Seq<char>>::empty(),
{
    let m = plan(saved, live);
    let pairs = paired(saved, live, saved.len());
    let all = renames_of(pairs);
    lemma_paired_again(saved, now, live, saved.len());
    let again = paired(now, live, now.len());
    assert(again == renamed_pairs(pairs, m));
    if collides(saved, pairs, all) {
        let i = choose|i: int|
            0 <= i < saved.len() && !matched(pairs, (#[trigger] saved[i]).stable_id@) && given(
                all,
                saved[i].stable_id@,
            );
        assert(again =~= pairs) by {
            assert forall|k: int| 0 <= k < pairs.len() implies again[k] == pairs[k] by {}
        }
        assert(now[i].stable_id@ == saved[i].stable_id@);
        assert(collides(now, again, renames_of(again)));
    } else {
        lemma_firsts(saved, live, saved.len());
        assert forall|i: int| 0 <= i < again.len() implies (#[trigger] again[i]).0 == again[i].1 by {
            lemma_pair_is_renaming(pairs, i);
            assert(again[i] == (renamed(pairs[i].0, m), pairs[i].1));
        }
        lemma_no_renames(again);
        assert(!collides(now, again, renames_of(again)));
    }
}

// ---------------------------------------------------------------------------
// Carrying the new names into everything saved
// ---------------------------------------------------------------------------

/// One where the name is renamed.
pub open spec fn touch(name: Seq<char>, m: Map<Seq<char>, Seq<char>>) -> nat {
    if m.contains_key(name) {
        1
    } else {
        0
    }
}

/// How many of the names are renamed.
pub open spec fn touches(names: Seq<Seq<char>>, m: Map<Seq<char>, Seq<char>>) -> nat
    decreases names.len(),
{
    if names.len() == 0 {
        0
    } else {
        touches(names.drop_last(), m) + touch(names.last(), m)
    }
}

pub open spec fn all_renamed(names: Seq<Seq<char>>, m: Map<Seq<char>, Seq<char>>) -> Seq<
    Seq<char>,
> {
    names.map_values(|n: Seq<char>| renamed(n, m))
}

pub open spec fn monitor_ids(monitors: Seq<SavedMonitor>) -> Seq<Seq<char>> {
    monitors.map_values(|s: SavedMonitor| s.stable_id@)
}

pub open spec fn slot_ids(slots: Seq<FixedParkingSlot>) -> Seq<Seq<char>> {
    slots.map_values(|s: FixedParkingSlot| s.monitor_id@)
}

pub open spec fn window_ids(windows: Seq<ManagedWindow>) -> Seq<Seq<char>> {
    windows.map_values(|w: ManagedWindow| w.main_placement.monitor_id@)
}

pub open spec fn area_touches(areas: Seq<SubScreen>, m: Map<Seq<char>, Seq<char>>) -> nat
    decreases areas.len(),
{
    if areas.len() == 0 {
        0
    } else {
        area_touches(areas.drop_last(), m) + touches(text::texts(areas.last().monitor_ids@), m)
    }
}

pub open spec fn set_touches(sets: Seq<Workset>, m: Map<Seq<char>, Seq<char>>) -> nat
    decreases sets.len(),
{
    if sets.len() == 0 {
        0
    } else {
        set_touches(sets.drop_last(), m) + touches(window_ids(sets.last().windows@), m)
    }
}

/// Where a set was parked, under the new name of the monitor.
pub open spec fn slot_renamed(slot: Seq<char>, m: Map<Seq<char>, Seq<char>>) -> Seq<char> {
    match text::split_last_pair(slot) {
        Some((name, cell)) => if m.contains_key(name) {
            m[name] + seq![':', ':'] + cell
        } else {
            slot
        },
        None => slot,
    }
}

pub open spec fn slot_touch(slot: Seq<char>, m: Map<Seq<char>, Seq<char>>) -> nat {
    match text::split_last_pair(slot) {
        Some((name, _)) => touch(name, m),
        None => 0,
    }
}

pub open spec fn slot_touches(slots: Seq<(String, String)>, m: Map<Seq<char>, Seq<char>>) -> nat
    decreases slots.len(),
{
    if slots.len() == 0 {
        0
    } else {
        slot_touches(slots.drop_last(), m) + slot_touch(slots.last().1@, m)
    }
}

/// One part of a fingerprint, under the new name of the monitor.
pub open spec fn part_renamed(part: Seq<char>, m: Map<Seq<char>, Seq<char>>) -> Seq<char> {
    match text::split_first(part, ':') {
        Some((name, rect)) => if m.contains_key(name) {
            m[name] + seq![':'] + rect
        } else {
            part
        },
        None => part,
    }
}

pub open spec fn part_touched(part: Seq<char>, m: Map<Seq<char>, Seq<char>>) -> bool {
    text::split_first(part, ':') matches Some((name, _)) && m.contains_key(name)
}

pub open spec fn parts_renamed(parts: Seq<Seq<char>>, m: Map<Seq<char>, Seq<char>>) -> Seq<
    Seq<char>,
> {
    parts.map_values(|p: Seq<char>| part_renamed(p, m))
}

/// A fingerprint under the new names, in ascending order again; nothing where no part of it is
/// renamed.
pub open spec fn fingerprint_renamed(
    fingerprint: Seq<char>,
    m: Map<Seq<char>, Seq<char>>,
) -> Option<Seq<char>> {
    let parts = text::split_on(fingerprint, '|');
    if exists|i: int| 0 <= i < parts.len() && part_touched(#[trigger] parts[i], m) {
        Some(text::join_with(order::sorted_of(parts_renamed(parts, m)), seq!['|']))
    } else {
        None
    }
}

fn rename(id: &mut String, renames: &RenameMap, changed: &mut usize)
    requires
        renames.wf(),
    ensures
        final(id)@ == renamed(old(id)@, renames@),
        *final(changed) == counting::counted(*old(changed) + touch(old(id)@, renames@)),
{
    if let Some(new_name) = renames.get(id.as_str()) {
        *id = new_name.clone();
        counting::bump(changed);
    }
}

/// The monitor under its new name, otherwise as it was.
pub open spec fn monitor_carried(
    now: SavedMonitor,
    before: SavedMonitor,
    m: Map<Seq<char>, Seq<char>>,
) -> bool {
    &&& now.stable_id@ == renamed(before.stable_id@, m)
    &&& now.device_name@ == renamed(before.device_name@, m)
    &&& now == (SavedMonitor {
        stable_id: now.stable_id,
        device_name: now.device_name,
        ..before
    })
}

pub open spec fn area_carried(
    now: SubScreen,
    before: SubScreen,
    m: Map<Seq<char>, Seq<char>>,
) -> bool {
    &&& text::texts(now.monitor_ids@) == all_renamed(text::texts(before.monitor_ids@), m)
    &&& now == (SubScreen { monitor_ids: now.monitor_ids, ..before })
}

pub open spec fn slot_carried(
    now: FixedParkingSlot,
    before: FixedParkingSlot,
    m: Map<Seq<char>, Seq<char>>,
) -> bool {
    &&& now.monitor_id@ == renamed(before.monitor_id@, m)
    &&& now == (FixedParkingSlot { monitor_id: now.monitor_id, ..before })
}

pub open spec fn window_carried(
    now: ManagedWindow,
    before: ManagedWindow,
    m: Map<Seq<char>, Seq<char>>,
) -> bool {
    &&& now.main_placement.monitor_id@ == renamed(before.main_placement.monitor_id@, m)
    &&& now.main_placement == (crate::domain::placement::SavedPlacement {
        monitor_id: now.main_placement.monitor_id,
        ..before.main_placement
    })
    &&& now == (ManagedWindow { main_placement: now.main_placement, ..before })
}

pub open spec fn set_carried(now: Workset, before: Workset, m: Map<Seq<char>, Seq<char>>) -> bool {
    &&& now.windows@.len() == before.windows@.len()
    &&& forall|i: int|
        0 <= i < now.windows@.len() ==> window_carried(
            #[trigger] now.windows@[i],
            before.windows@[i],
            m,
        )
    &&& now == (Workset { windows: now.windows, ..before })
}

/// The configuration under the new names, otherwise as it was.
pub open spec fn config_carried(
    now: AppConfig,
    before: AppConfig,
    m: Map<Seq<char>, Seq<char>>,
) -> bool {
    &&& now.settings == before.settings
    &&& now.monitors@.len() == before.monitors@.len()
    &&& forall|i: int|
        0 <= i < now.monitors@.len() ==> monitor_carried(
            #[trigger] now.monitors@[i],
            before.monitors@[i],
            m,
        )
    &&& text::texts(now.main_monitor_ids@) == all_renamed(text::texts(before.main_monitor_ids@), m)
    &&& now.sub_screens@.len() == before.sub_screens@.len()
    &&& forall|i: int|
        0 <= i < now.sub_screens@.len() ==> area_carried(
            #[trigger] now.sub_screens@[i],
            before.sub_screens@[i],
            m,
        )
    &&& now.fixed_slots@.len() == before.fixed_slots@.len()
    &&& forall|i: int|
        0 <= i < now.fixed_slots@.len() ==> slot_carried(
            #[trigger] now.fixed_slots@[i],
            before.fixed_slots@[i],
            m,
        )
    &&& now.worksets@.len() == before.worksets@.len()
    &&& forall|i: int|
        0 <= i < now.worksets@.len() ==> set_carried(
            #[trigger] now.worksets@[i],
            before.worksets@[i],
            m,
        )
}

/// How many references a renaming changes.
pub open spec fn references(
    config: AppConfig,
    slots: Seq<(String, String)>,
    fingerprint: Option<String>,
    m: Map<Seq<char>, Seq<char>>,
) -> int {
    touches(monitor_ids(config.monitors@), m) + touches(text::texts(config.main_monitor_ids@), m)
        + area_touches(config.sub_screens@, m) + touches(slot_ids(config.fixed_slots@), m)
        + set_touches(config.worksets@, m) + slot_touches(slots, m) + (match fingerprint {
        Some(f) => if fingerprint_renamed(f@, m) is Some {
            1int
        } else {
            0int
        },
        None => 0int,
    })
}

fn rename_ids(ids: &mut Vec<String>, renames: &RenameMap, changed: &mut usize)
    requires
        renames.wf(),
    ensures
        text::texts(final(ids)@) == all_renamed(text::texts(old(ids)@), renames@),
        *final(changed) == counting::counted(*old(changed) + touches(text::texts(old(ids)@), renames@)),
{
    let ghost before = text::texts(ids@);
    let ghost all = all_renamed(before, renames@);
    let n: usize = ids.len();
    let mut i: usize = 0;
    assert(text::texts(ids@) =~= all.take(0) + before.skip(0));
    while i < n
        invariant
            i <= n == before.len(),
            ids@.len() == n,
            renames.wf(),
            before == text::texts(old(ids)@),
            all == all_renamed(before, renames@),
            text::texts(ids@) == all.take(i as int) + before.skip(i as int),
            *changed == counting::counted(*old(changed) + touches(before.take(i as int), renames@)),
        decreases n - i,
    {
        let ghost was = text::texts(ids@);
        proof {
            assert(before.take(i + 1).drop_last() =~= before.take(i as int));
            assert(before.take(i + 1).last() == before[i as int]);
            assert(was[i as int] == before[i as int]);
            assert(ids@[i as int]@ == was[i as int]);
        }
        let ghost ids0 = ids@;
        rename(&mut ids[i], renames, changed);
        proof {
            assert(text::texts(ids@) =~= was.update(i as int, renamed(before[i as int], renames@)));
            assert(text::texts(ids@) =~= all.take(i + 1) + before.skip(i + 1));
        }
        i += 1;
    }
    proof {
        assert(all.take(n as int) + before.skip(n as int) =~= all);
        assert(before.take(n as int) =~= before);
    }
}

fn rename_monitors(monitors: &mut Vec<SavedMonitor>, renames: &RenameMap, changed: &mut usize)
    requires
        renames.wf(),
    ensures
        final(monitors)@.len() == old(monitors)@.len(),
        forall|k: int|
            0 <= k < final(monitors)@.len() ==> monitor_carried(
                #[trigger] final(monitors)@[k],
                old(monitors)@[k],
                renames@,
            ),
        *final(changed) == counting::counted(*old(changed) + touches(monitor_ids(old(monitors)@), renames@)),
{
    let ghost before = monitors@;
    let ghost ids = monitor_ids(before);
    let n: usize = monitors.len();
    let mut i: usize = 0;
    while i < n
        invariant
            i <= n == before.len(),
            monitors@.len() == n,
            renames.wf(),
            before == old(monitors)@,
            ids == monitor_ids(before),
            forall|k: int|
                0 <= k < i ==> monitor_carried(#[trigger] monitors@[k], before[k], renames@),
            forall|k: int| i <= k < n ==> #[trigger] monitors@[k] == before[k],
            *changed == counting::counted(*old(changed) + touches(ids.take(i as int), renames@)),
        decreases n - i,
    {
        proof {
            assert(ids.take(i + 1).drop_last() =~= ids.take(i as int));
            assert(ids.take(i + 1).last() == before[i as int].stable_id@);
            assert(monitors@[i as int] == before[i as int]);
        }
        rename(&mut monitors[i].stable_id, renames, changed);
        if let Some(new_name) = renames.get(monitors[i].device_name.as_str()) {
            monitors[i].device_name = new_name.clone();
        }
        i += 1;
    }
    assert(ids.take(n as int) =~= ids);
}

fn rename_areas(areas: &mut Vec<SubScreen>, renames: &RenameMap, changed: &mut usize)
    requires
        renames.wf(),
    ensures
        final(areas)@.len() == old(areas)@.len(),
        forall|k: int|
            0 <= k < final(areas)@.len() ==> area_carried(
                #[trigger] final(areas)@[k],
                old(areas)@[k],
                renames@,
            ),
        *final(changed) == counting::counted(*old(changed) + area_touches(old(areas)@, renames@)),
{
    let ghost before = areas@;
    let n: usize = areas.len();
    let mut i: usize = 0;
    while i < n
        invariant
            i <= n == before.len(),
            areas@.len() == n,
            renames.wf(),
            before == old(areas)@,
            forall|k: int| 0 <= k < i ==> area_carried(#[trigger] areas@[k], before[k], renames@),
            forall|k: int| i <= k < n ==> #[trigger] areas@[k] == before[k],
            *changed == counting::counted(*old(changed) + area_touches(before.take(i as int), renames@)),
        decreases n - i,
    {
        proof {
            assert(before.take(i + 1).drop_last() =~= before.take(i as int));
            assert(before.take(i + 1).last() == before[i as int]);
            assert(areas@[i as int] == before[i as int]);
        }
        rename_ids(&mut areas[i].monitor_ids, renames, changed);
        i += 1;
    }
    assert(before.take(n as int) =~= before);
}

fn rename_slots(slots: &mut Vec<FixedParkingSlot>, renames: &RenameMap, changed: &mut usize)
    requires
        renames.wf(),
    ensures
        final(slots)@.len() == old(slots)@.len(),
        forall|k: int|
            0 <= k < final(slots)@.len() ==> slot_carried(
                #[trigger] final(slots)@[k],
                old(slots)@[k],
                renames@,
            ),
        *final(changed) == counting::counted(*old(changed) + touches(slot_ids(old(slots)@), renames@)),
{
    let ghost before = slots@;
    let ghost ids = slot_ids(before);
    let n: usize = slots.len();
    let mut i: usize = 0;
    while i < n
        invariant
            i <= n == before.len(),
            slots@.len() == n,
            renames.wf(),
            before == old(slots)@,
            ids == slot_ids(before),
            forall|k: int| 0 <= k < i ==> slot_carried(#[trigger] slots@[k], before[k], renames@),
            forall|k: int| i <= k < n ==> #[trigger] slots@[k] == before[k],
            *changed == counting::counted(*old(changed) + touches(ids.take(i as int), renames@)),
        decreases n - i,
    {
        proof {
            assert(ids.take(i + 1).drop_last() =~= ids.take(i as int));
            assert(ids.take(i + 1).last() == before[i as int].monitor_id@);
            assert(slots@[i as int] == before[i as int]);
        }
        rename(&mut slots[i].monitor_id, renames, changed);
        i += 1;
    }
    assert(ids.take(n as int) =~= ids);
}

fn rename_windows(windows: &mut Vec<ManagedWindow>, renames: &RenameMap, changed: &mut usize)
    requires
        renames.wf(),
    ensures
        final(windows)@.len() == old(windows)@.len(),
        forall|k: int|
            0 <= k < final(windows)@.len() ==> window_carried(
                #[trigger] final(windows)@[k],
                old(windows)@[k],
                renames@,
            ),
        *final(changed) == counting::counted(*old(changed) + touches(window_ids(old(windows)@), renames@)),
{
    let ghost before = windows@;
    let ghost ids = window_ids(before);
    let n: usize = windows.len();
    let mut i: usize = 0;
    while i < n
        invariant
            i <= n == before.len(),
            windows@.len() == n,
            renames.wf(),
            before == old(windows)@,
            ids == window_ids(before),
            forall|k: int|
                0 <= k < i ==> window_carried(#[trigger] windows@[k], before[k], renames@),
            forall|k: int| i <= k < n ==> #[trigger] windows@[k] == before[k],
            *changed == counting::counted(*old(changed) + touches(ids.take(i as int), renames@)),
        decreases n - i,
    {
        proof {
            assert(ids.take(i + 1).drop_last() =~= ids.take(i as int));
            assert(ids.take(i + 1).last() == before[i as int].main_placement.monitor_id@);
            assert(windows@[i as int] == before[i as int]);
        }
        rename(&mut windows[i].main_placement.monitor_id, renames, changed);
        i += 1;
    }
    assert(ids.take(n as int) =~= ids);
}

fn rename_sets(sets: &mut Vec<Workset>, renames: &RenameMap, changed: &mut usize)
    requires
        renames.wf(),
    ensures
        final(sets)@.len() == old(sets)@.len(),
        forall|k: int|
            0 <= k < final(sets)@.len() ==> set_carried(
                #[trigger] final(sets)@[k],
                old(sets)@[k],
                renames@,
            ),
        *final(changed) == counting::counted(*old(changed) + set_touches(old(sets)@, renames@)),
{
    let ghost before = sets@;
    let n: usize = sets.len();
    let mut i: usize = 0;
    while i < n
        invariant
            i <= n == before.len(),
            sets@.len() == n,
            renames.wf(),
            before == old(sets)@,
            forall|k: int| 0 <= k < i ==> set_carried(#[trigger] sets@[k], before[k], renames@),
            forall|k: int| i <= k < n ==> #[trigger] sets@[k] == before[k],
            *changed == counting::counted(*old(changed) + set_touches(before.take(i as int), renames@)),
        decreases n - i,
    {
        proof {
            assert(before.take(i + 1).drop_last() =~= before.take(i as int));
            assert(before.take(i + 1).last() == before[i as int]);
            assert(sets@[i as int] == before[i as int]);
        }
        rename_windows(&mut sets[i].windows, renames, changed);
        i += 1;
    }
    assert(before.take(n as int) =~= before);
}

/// The places of parked sets under the new names, for the same sets.
pub open spec fn assignments_carried(
    now: Seq<(String, String)>,
    before: Seq<(String, String)>,
    m: Map<Seq<char>, Seq<char>>,
) -> bool {
    &&& now.len() == before.len()
    &&& forall|i: int|
        0 <= i < now.len() ==> (#[trigger] now[i]).0 == before[i].0 && now[i].1@ == slot_renamed(
            before[i].1@,
            m,
        )
}

/// The fingerprint under the new names, or as it was where no part of it is renamed.
pub open spec fn fingerprint_carried(
    now: Option<String>,
    before: Option<String>,
    m: Map<Seq<char>, Seq<char>>,
) -> bool {
    match before {
        Some(f) => match fingerprint_renamed(f@, m) {
            Some(g) => text::opt_text(now) == Some(g),
            None => now == before,
        },
        None => now is None,
    }
}

fn rename_assignments(
    assignments: &mut Vec<(String, String)>,
    renames: &RenameMap,
    changed: &mut usize,
)
    requires
        renames.wf(),
    ensures
        assignments_carried(final(assignments)@, old(assignments)@, renames@),
        *final(changed) == counting::counted(*old(changed) + slot_touches(old(assignments)@, renames@)),
{
    let ghost before = assignments@;
    let n: usize = assignments.len();
    let mut i: usize = 0;
    while i < n
        invariant
            i <= n == before.len(),
            assignments@.len() == n,
            renames.wf(),
            before == old(assignments)@,
            forall|k: int|
                0 <= k < i ==> (#[trigger] assignments@[k]).0 == before[k].0 && assignments@[k].1@
                    == slot_renamed(before[k].1@, renames@),
            forall|k: int| i <= k < n ==> #[trigger] assignments@[k] == before[k],
            *changed == counting::counted(*old(changed) + slot_touches(before.take(i as int), renames@)),
        decreases n - i,
    {
        proof {
            assert(before.take(i + 1).drop_last() =~= before.take(i as int));
            assert(before.take(i + 1).last() == before[i as int]);
            assert(assignments@[i as int] == before[i as int]);
        }
        if let Some((name, cell)) = text::split_at_last_pair(assignments[i].1.as_str()) {
            if let Some(new_name) = renames.get(name.as_str()) {
                proof {
                    reveal_strlit("::");
                    assert("::"@ =~= seq![':', ':']);
                }
                assignments[i].1 = text::joined3(new_name.as_str(), "::", cell.as_str());
                counting::bump(changed);
            }
        }
        i += 1;
    }
    assert(before.take(n as int) =~= before);
}

/// A fingerprint under the new names, or nothing where no part of it is renamed.
fn rename_fingerprint(fingerprint: &str, renames: &RenameMap) -> (r: Option<String>)
    requires
        renames.wf(),
    ensures
        match r {
            Some(f) => fingerprint_renamed(fingerprint@, renames@) == Some(f@),
            None => fingerprint_renamed(fingerprint@, renames@) is None,
        },
{
    let pieces = text::split_text(fingerprint, '|');
    let ghost parts = text::texts(pieces@);
    let ghost all = parts_renamed(parts, renames@);
    let mut touched = false;
    let mut out: Vec<String> = Vec::new();
    let mut i: usize = 0;
    assert(text::texts(out@) =~= all.take(0));
    while i < pieces.len()
        invariant
            i <= pieces@.len(),
            renames.wf(),
            parts == text::texts(pieces@),
            all == parts_renamed(parts, renames@),
            text::texts(out@) == all.take(i as int),
            touched == exists|k: int| 0 <= k < i && part_touched(#[trigger] parts[k], renames@),
        decreases pieces@.len() - i,
    {
        let ghost so_far = out@;
        assert(parts[i as int] == pieces@[i as int]@);
        let mut part = pieces[i].clone();
        if let Some((name, rect)) = text::split_at_first(pieces[i].as_str(), ':') {
            if let Some(new_name) = renames.get(name.as_str()) {
                touched = true;
                proof {
                    reveal_strlit(":");
                    assert(":"@ =~= seq![':']);
                    assert(part_touched(parts[i as int], renames@));
                }
                part = text::joined3(new_name.as_str(), ":", rect.as_str());
            }
        }
        out.push(part);
        proof {
            assert(all[i as int] == part_renamed(parts[i as int], renames@));
            assert(text::texts(out@) =~= text::texts(so_far).push(all[i as int]));
            assert(all.take(i + 1) =~= all.take(i as int).push(all[i as int]));
        }
        i += 1;
    }
    if !touched {
        return None;
    }
    assert(text::texts(out@) =~= all);
    let sorted = order::sorted_texts(&out);
    proof {
        reveal_strlit("|");
        assert("|"@ =~= seq!['|']);
    }
    Some(text::join_text(&sorted, "|"))
}

/// Carries a plan into everything saved that holds the name of a monitor. Returns how many
/// references were changed.
pub fn apply_remap(
    config: &mut AppConfig,
    auto_slot_assignments: &mut Vec<(String, String)>,
    last_seen_monitor_fingerprint: &mut Option<String>,
    renames: &RenameMap,
) -> (r: usize)
    requires
        renames.wf(),
    ensures
        config_carried(*final(config), *old(config), renames@),
        assignments_carried(
            final(auto_slot_assignments)@,
            old(auto_slot_assignments)@,
            renames@,
        ),
        fingerprint_carried(
            *final(last_seen_monitor_fingerprint),
            *old(last_seen_monitor_fingerprint),
            renames@,
        ),
        r == counting::counted(
            references(
                *old(config),
                old(auto_slot_assignments)@,
                *old(last_seen_monitor_fingerprint),
                renames@,
            ),
        ),
{
    let mut changed: usize = 0;
    rename_monitors(&mut config.monitors, renames, &mut changed);
    rename_ids(&mut config.main_monitor_ids, renames, &mut changed);
    rename_areas(&mut config.sub_screens, renames, &mut changed);
    rename_slots(&mut config.fixed_slots, renames, &mut changed);
    rename_sets(&mut config.worksets, renames, &mut changed);
    rename_assignments(auto_slot_assignments, renames, &mut changed);
    let rewritten = match last_seen_monitor_fingerprint {
        Some(fingerprint) => rename_fingerprint(fingerprint.as_str(), renames),
        None => None,
    };
    if rewritten.is_some() {
        *last_seen_monitor_fingerprint = rewritten;
        counting::bump(&mut changed);
    }
    changed
}

/// The monitors as they are after the renaming: each under its new name, where it was.
pub open spec fn same_places(
    now: Seq<MonitorInfo>,
    before: Seq<MonitorInfo>,
    m: Map<Seq<char>, Seq<char>>,
) -> bool {
    &&& now.len() == before.len()
    &&& forall|i: int|
        0 <= i < now.len() ==> (#[trigger] now[i]).device_name@ == renamed(
            before[i].device_name@,
            m,
        ) && now[i].bounds_px == before[i].bounds_px
}

/// Renaming a fingerprint comes to the same as taking it anew from the renamed monitors, provided
/// that no old name holds a bar or a colon.
pub proof fn law_renamed_fingerprint_is_fresh(
    before: Seq<MonitorInfo>,
    now: Seq<MonitorInfo>,
    m: Map<Seq<char>, Seq<char>>,
)
    requires
        same_places(now, before, m),
        forall|i: int|
            0 <= i < before.len() ==> text::lacks((#[trigger] before[i]).device_name@, '|')
                && text::lacks(before[i].device_name@, ':'),
    ensures
        match fingerprint_renamed(monitor_watch_service::fingerprint_of(before), m) {
            Some(f) => f == monitor_watch_service::fingerprint_of(now),
            None => monitor_watch_service::fingerprint_of(now)
                == monitor_watch_service::fingerprint_of(before),
        },
{
    broadcast use vstd::seq_lib::group_to_multiset_ensures;

    let pb = monitor_watch_service::parts_of(before);
    let pn = monitor_watch_service::parts_of(now);
    let sorted = order::sorted_of(pb);
    let print = monitor_watch_service::fingerprint_of(before);
    let parts = text::split_on(print, '|');
    order::lemma_sorted_of(pb);
    monitor_watch_service::lemma_sorted_parts(before);
    let f = |p: Seq<char>| part_renamed(p, m);
    assert forall|i: int| 0 <= i < pb.len() implies part_renamed(#[trigger] pb[i], m) == pn[i] by {
        let name = before[i].device_name@;
        let rect = monitor_watch_service::rect_text(before[i].bounds_px);
        assert(pb[i] == name + seq![':'] + rect);
        assert(text::lacks(before[i].device_name@, ':'));
        assert forall|j: int| 0 <= j < name.len() implies pb[i][j] != ':' by {
            assert(pb[i][j] == name[j]);
        }
        text::lemma_split_first(pb[i], ':', name.len() as int);
        assert(pb[i].take(name.len() as int) =~= name);
        assert(pb[i].skip(name.len() as int + 1) =~= rect);
        assert(now[i].device_name@ == renamed(before[i].device_name@, m));
    }
    assert(parts_renamed(pb, m) =~= pn);
    if before.len() >= 1 {
        text::lemma_split_of_join(sorted, '|');
        assert(parts == sorted);
        assert(sorted.to_multiset() == pb.to_multiset());
        order::lemma_map_to_multiset(sorted, pb, f);
        assert(parts_renamed(sorted, m) =~= sorted.map_values(f));
        assert(parts_renamed(pb, m) =~= pb.map_values(f));
        order::lemma_sorted_of_same(parts_renamed(sorted, m), pn);
        if fingerprint_renamed(print, m) is None {
            assert forall|i: int| 0 <= i < sorted.len() implies part_renamed(
                #[trigger] sorted[i],
                m,
            ) == sorted[i] by {
                assert(!part_touched(parts[i], m));
            }
            assert(parts_renamed(sorted, m) =~= sorted);
            order::lemma_sorted_of(pn);
            order::lemma_sorted_of_same(sorted, pb);
            order::lemma_sorted_of_same(sorted, pn);
        }
    } else {
        assert(print =~= Seq::<char>::empty());
        assert(parts =~= seq![Seq::<char>::empty()]);
        assert(pn =~= pb);
        assert(!part_touched(parts[0], m));
    }
}

/// Every new name is renamed to the old one in turn, as where two names are swapped.
pub open spec fn takes_back(m: Map<Seq<char>, Seq<char>>) -> bool {
    forall|n: Seq<char>| #[trigger] m.contains_key(n) ==> m.contains_key(m[n]) && m[m[n]] == n
}

proof fn lemma_renamed_twice(n: Seq<char>, m: Map<Seq<char>, Seq<char>>)
    requires
        takes_back(m),
    ensures
        renamed(renamed(n, m), m) == n,
        touch(renamed(n, m), m) == touch(n, m),
{
}

proof fn lemma_all_renamed_twice(names: Seq<Seq<char>>, m: Map<Seq<char>, Seq<char>>)
    requires
        takes_back(m),
    ensures
        all_renamed(all_renamed(names, m), m) == names,
        touches(all_renamed(names, m), m) == touches(names, m),
    decreases names.len(),
{
    let now = all_renamed(names, m);
    assert forall|i: int| 0 <= i < names.len() implies renamed(#[trigger] now[i], m) == names[i] by {
        lemma_renamed_twice(names[i], m);
    }
    assert(all_renamed(now, m) =~= names);
    if names.len() > 0 {
        lemma_all_renamed_twice(names.drop_last(), m);
        assert(now.drop_last() =~= all_renamed(names.drop_last(), m));
        lemma_renamed_twice(names.last(), m);
    }
}

proof fn lemma_area_touches_again(
    now: Seq<SubScreen>,
    before: Seq<SubScreen>,
    m: Map<Seq<char>, Seq<char>>,
)
    requires
        takes_back(m),
        now.len() == before.len(),
        forall|i: int| 0 <= i < now.len() ==> area_carried(#[trigger] now[i], before[i], m),
    ensures
        area_touches(now, m) == area_touches(before, m),
    decreases now.len(),
{
    if now.len() > 0 {
        assert(area_carried(now[now.len() - 1], before[now.len() - 1], m));
        lemma_area_touches_again(now.drop_last(), before.drop_last(), m);
        lemma_all_renamed_twice(text::texts(before.last().monitor_ids@), m);
    }
}

proof fn lemma_set_touches_again(
    now: Seq<Workset>,
    before: Seq<Workset>,
    m: Map<Seq<char>, Seq<char>>,
)
    requires
        takes_back(m),
        now.len() == before.len(),
        forall|i: int| 0 <= i < now.len() ==> set_carried(#[trigger] now[i], before[i], m),
    ensures
        set_touches(now, m) == set_touches(before, m),
    decreases now.len(),
{
    if now.len() > 0 {
        let (n, b) = (now.last().windows@, before.last().windows@);
        assert(set_carried(now[now.len() - 1], before[now.len() - 1], m));
        lemma_set_touches_again(now.drop_last(), before.drop_last(), m);
        lemma_all_renamed_twice(window_ids(b), m);
        assert forall|i: int| 0 <= i < n.len() implies window_ids(n)[i] == renamed(
            window_ids(b)[i],
            m,
        ) by {
            assert(window_carried(n[i], b[i], m));
        }
        assert(window_ids(n) =~= all_renamed(window_ids(b), m));
    }
}

proof fn lemma_slot_renamed_twice(slot: Seq<char>, m: Map<Seq<char>, Seq<char>>)
    requires
        takes_back(m),
    ensures
        slot_renamed(slot_renamed(slot, m), m) == slot,
        slot_touch(slot_renamed(slot, m), m) == slot_touch(slot, m),
{
    text::lemma_split_last_pair_sides(slot);
    if let Some((name, cell)) = text::split_last_pair(slot) {
        if m.contains_key(name) {
            text::lemma_split_last_pair_again(m[name], cell);
        }
    }
}

proof fn lemma_slot_touches_again(
    now: Seq<(String, String)>,
    before: Seq<(String, String)>,
    m: Map<Seq<char>, Seq<char>>,
)
    requires
        takes_back(m),
        assignments_carried(now, before, m),
    ensures
        slot_touches(now, m) == slot_touches(before, m),
    decreases now.len(),
{
    if now.len() > 0 {
        assert(now[now.len() - 1].1@ == slot_renamed(before[now.len() - 1].1@, m));
        assert(assignments_carried(now.drop_last(), before.drop_last(), m)) by {
            assert forall|i: int| 0 <= i < now.len() - 1 implies (
            #[trigger] now.drop_last()[i]).0 == before.drop_last()[i].0 && now.drop_last()[i].1@
                == slot_renamed(before.drop_last()[i].1@, m) by {
                assert(now[i].0 == before[i].0);
            }
        }
        lemma_slot_touches_again(now.drop_last(), before.drop_last(), m);
        lemma_slot_renamed_twice(before.last().1@, m);
    }
}

/// No monitor's name holds a bar or a colon.
pub open spec fn plainly_named(monitors: Seq<MonitorInfo>) -> bool {
    forall|i: int|
        0 <= i < monitors.len() ==> text::lacks((#[trigger] monitors[i]).device_name@, '|')
            && text::lacks(monitors[i].device_name@, ':')
}

/// One of the monitors is renamed.
pub open spec fn some_renamed(monitors: Seq<MonitorInfo>, m: Map<Seq<char>, Seq<char>>) -> bool {
    exists|i: int| 0 <= i < monitors.len() && m.contains_key((#[trigger] monitors[i]).device_name@)
}

proof fn lemma_part_touched(monitor: MonitorInfo, m: Map<Seq<char>, Seq<char>>)
    requires
        text::lacks(monitor.device_name@, ':'),
    ensures
        part_touched(monitor_watch_service::part_of(monitor), m) == m.contains_key(
            monitor.device_name@,
        ),
{
    let name = monitor.device_name@;
    let part = monitor_watch_service::part_of(monitor);
    assert forall|j: int| 0 <= j < name.len() implies part[j] != ':' by {
        assert(part[j] == name[j]);
    }
    text::lemma_split_first(part, ':', name.len() as int);
    assert(part.take(name.len() as int) =~= name);
}

/// A fingerprint is rewritten exactly where one of its monitors is renamed.
proof fn lemma_fingerprint_touched(monitors: Seq<MonitorInfo>, m: Map<Seq<char>, Seq<char>>)
    requires
        plainly_named(monitors),
    ensures
        fingerprint_renamed(monitor_watch_service::fingerprint_of(monitors), m) is Some
            <==> some_renamed(monitors, m),
{
    broadcast use vstd::seq_lib::group_to_multiset_ensures;

    let made = monitor_watch_service::parts_of(monitors);
    let sorted = order::sorted_of(made);
    let print = monitor_watch_service::fingerprint_of(monitors);
    let parts = text::split_on(print, '|');
    assert forall|i: int| 0 <= i < monitors.len() implies text::lacks(
        (#[trigger] monitors[i]).device_name@,
        '|',
    ) by {}
    monitor_watch_service::lemma_sorted_parts(monitors);
    order::lemma_sorted_of(made);
    made.to_multiset_ensures();
    sorted.to_multiset_ensures();
    if monitors.len() >= 1 {
        text::lemma_split_of_join(sorted, '|');
        assert(parts == sorted);
        if some_renamed(monitors, m) {
            let i = choose|i: int|
                0 <= i < monitors.len() && m.contains_key((#[trigger] monitors[i]).device_name@);
            lemma_part_touched(monitors[i], m);
            assert(made[i] == monitor_watch_service::part_of(monitors[i]));
            assert(made.contains(made[i]));
            assert(sorted.to_multiset().count(made[i]) > 0);
            assert(sorted.contains(made[i]));
            let k = choose|k: int| 0 <= k < sorted.len() && sorted[k] == made[i];
            assert(part_touched(parts[k], m));
        }
        if exists|k: int| 0 <= k < parts.len() && part_touched(#[trigger] parts[k], m) {
            let k = choose|k: int| 0 <= k < parts.len() && part_touched(#[trigger] parts[k], m);
            assert(sorted.contains(sorted[k]));
            assert(made.to_multiset().count(sorted[k]) > 0);
            assert(made.contains(sorted[k]));
            let i = choose|i: int| 0 <= i < made.len() && made[i] == sorted[k];
            assert(made[i] == monitor_watch_service::part_of(monitors[i]));
            lemma_part_touched(monitors[i], m);
        }
    } else {
        assert(print =~= Seq::<char>::empty());
        assert(parts =~= seq![Seq::<char>::empty()]);
        assert(!part_touched(parts[0], m));
    }
}

/// The references that a renaming changes are as many as its way back changes.
proof fn lemma_references_again(
    now: AppConfig,
    before: AppConfig,
    slots_now: Seq<(String, String)>,
    slots_before: Seq<(String, String)>,
    m: Map<Seq<char>, Seq<char>>,
)
    requires
        takes_back(m),
        config_carried(now, before, m),
        assignments_carried(slots_now, slots_before, m),
    ensures
        references(now, slots_now, None, m) == references(before, slots_before, None, m),
{
    let (a, b) = (now.monitors@, before.monitors@);
    assert forall|i: int| 0 <= i < a.len() implies monitor_ids(a)[i] == renamed(
        monitor_ids(b)[i],
        m,
    ) by {
        assert(monitor_carried(a[i], b[i], m));
    }
    assert(monitor_ids(a) =~= all_renamed(monitor_ids(b), m));
    lemma_all_renamed_twice(monitor_ids(b), m);
    lemma_all_renamed_twice(text::texts(before.main_monitor_ids@), m);
    lemma_area_touches_again(now.sub_screens@, before.sub_screens@, m);
    let (c, d) = (now.fixed_slots@, before.fixed_slots@);
    assert forall|i: int| 0 <= i < c.len() implies slot_ids(c)[i] == renamed(slot_ids(d)[i], m) by {
        assert(slot_carried(c[i], d[i], m));
    }
    assert(slot_ids(c) =~= all_renamed(slot_ids(d), m));
    lemma_all_renamed_twice(slot_ids(d), m);
    lemma_set_touches_again(now.worksets@, before.worksets@, m);
    lemma_slot_touches_again(slots_now, slots_before, m);
}

/// Carried forth and back, the configuration is as it was.
proof fn lemma_config_again(
    last: AppConfig,
    now: AppConfig,
    before: AppConfig,
    m: Map<Seq<char>, Seq<char>>,
)
    requires
        takes_back(m),
        config_carried(now, before, m),
        config_carried(last, now, m),
    ensures
        config_carried(last, before, Map::empty()),
{
    let none = Map::<Seq<char>, Seq<char>>::empty();
    assert forall|i: int| 0 <= i < last.monitors@.len() implies monitor_carried(
        #[trigger] last.monitors@[i],
        before.monitors@[i],
        none,
    ) by {
        assert(monitor_carried(now.monitors@[i], before.monitors@[i], m));
        lemma_renamed_twice(before.monitors@[i].stable_id@, m);
        lemma_renamed_twice(before.monitors@[i].device_name@, m);
    }
    let ids = text::texts(before.main_monitor_ids@);
    lemma_all_renamed_twice(ids, m);
    assert(all_renamed(ids, none) =~= ids);
    assert forall|i: int| 0 <= i < last.sub_screens@.len() implies area_carried(
        #[trigger] last.sub_screens@[i],
        before.sub_screens@[i],
        none,
    ) by {
        assert(area_carried(now.sub_screens@[i], before.sub_screens@[i], m));
        let names = text::texts(before.sub_screens@[i].monitor_ids@);
        lemma_all_renamed_twice(names, m);
        assert(all_renamed(names, none) =~= names);
    }
    assert forall|i: int| 0 <= i < last.fixed_slots@.len() implies slot_carried(
        #[trigger] last.fixed_slots@[i],
        before.fixed_slots@[i],
        none,
    ) by {
        assert(slot_carried(now.fixed_slots@[i], before.fixed_slots@[i], m));
        lemma_renamed_twice(before.fixed_slots@[i].monitor_id@, m);
    }
    assert forall|i: int| 0 <= i < last.worksets@.len() implies set_carried(
        #[trigger] last.worksets@[i],
        before.worksets@[i],
        none,
    ) by {
        let (x, y, z) = (last.worksets@[i], now.worksets@[i], before.worksets@[i]);
        assert(set_carried(y, z, m));
        assert forall|k: int| 0 <= k < x.windows@.len() implies window_carried(
            #[trigger] x.windows@[k],
            z.windows@[k],
            none,
        ) by {
            assert(window_carried(y.windows@[k], z.windows@[k], m));
            lemma_renamed_twice(z.windows@[k].main_placement.monitor_id@, m);
        }
    }
}

/// A renaming that takes itself back, such as the swapping of two names, restores everything the
/// second time, and changes as many references as the first time. In between the fingerprint is
/// that of the renamed monitors. The names that the fingerprint goes by hold no bar and no colon.
pub proof fn law_swapping_twice_restores(
    configs: (AppConfig, AppConfig, AppConfig),
    slots: (Seq<(String, String)>, Seq<(String, String)>, Seq<(String, String)>),
    prints: (Option<String>, Option<String>, Option<String>),
    monitors: Seq<MonitorInfo>,
    swapped: Seq<MonitorInfo>,
    m: Map<Seq<char>, Seq<char>>,
)
    requires
        takes_back(m),
        config_carried(configs.1, configs.0, m),
        config_carried(configs.2, configs.1, m),
        assignments_carried(slots.1, slots.0, m),
        assignments_carried(slots.2, slots.1, m),
        fingerprint_carried(prints.1, prints.0, m),
        fingerprint_carried(prints.2, prints.1, m),
        prints.0 matches Some(f) ==> f@ == monitor_watch_service::fingerprint_of(monitors),
        same_places(swapped, monitors, m),
        plainly_named(monitors),
        plainly_named(swapped),
    ensures
        config_carried(configs.2, configs.0, Map::empty()),
        assignments_carried(slots.2, slots.0, Map::empty()),
        text::opt_text(prints.2) == text::opt_text(prints.0),
        prints.0 is Some ==> text::opt_text(prints.1) == Some(
            monitor_watch_service::fingerprint_of(swapped),
        ),
        references(configs.1, slots.1, prints.1, m) == references(
            configs.0,
            slots.0,
            prints.0,
            m,
        ),
{
    lemma_config_again(configs.2, configs.1, configs.0, m);
    assert forall|i: int| 0 <= i < slots.2.len() implies (#[trigger] slots.2[i]).0 == slots.0[i].0
        && slots.2[i].1@ == slot_renamed(slots.0[i].1@, Map::empty()) by {
        assert(slots.1[i].0 == slots.0[i].0);
        lemma_slot_renamed_twice(slots.0[i].1@, m);
    }
    lemma_references_again(configs.1, configs.0, slots.1, slots.0, m);
    assert(same_places(monitors, swapped, m)) by {
        assert forall|i: int| 0 <= i < monitors.len() implies (
        #[trigger] monitors[i]).device_name@ == renamed(swapped[i].device_name@, m)
            && monitors[i].bounds_px == swapped[i].bounds_px by {
            assert(swapped[i].device_name@ == renamed(monitors[i].device_name@, m));
            lemma_renamed_twice(monitors[i].device_name@, m);
        }
    }
    if prints.0 is Some {
        law_renamed_fingerprint_is_fresh(monitors, swapped, m);
        law_renamed_fingerprint_is_fresh(swapped, monitors, m);
        lemma_fingerprint_touched(monitors, m);
        lemma_fingerprint_touched(swapped, m);
        assert(some_renamed(monitors, m) == some_renamed(swapped, m)) by {
            if some_renamed(monitors, m) {
                let i = choose|i: int|
                    0 <= i < monitors.len() && m.contains_key(
                        (#[trigger] monitors[i]).device_name@,
                    );
                assert(swapped[i].device_name@ == renamed(monitors[i].device_name@, m));
            }
            if some_renamed(swapped, m) {
                let i = choose|i: int|
                    0 <= i < swapped.len() && m.contains_key((#[trigger] swapped[i]).device_name@);
                assert(monitors[i].device_name@ == renamed(swapped[i].device_name@, m));
            }
        }
    }
}

// ---------------------------------------------------------------------------
// Learning device paths
// ---------------------------------------------------------------------------

/// What came of refreshing the device paths.
#[derive(Clone, Debug)]
pub struct RefreshOutcome {
    /// How many monitors without a path were given one.
    pub filled: usize,
    /// The ids of the monitors whose saved path is not that of the connected monitor of the same
    /// name. They are left as they were.
    pub conflicting: Vec<String>,
}

impl RefreshOutcome {
    pub fn changed(&self) -> (r: bool)
        ensures
            r == (self.filled > 0),
    {
        self.filled > 0
    }
}

pub open spec fn name_test(live: Seq<LiveMonitor>, name: Seq<char>) -> spec_fn(int) -> bool {
    |i: int| live[i].device_name@ == name
}

/// The path of the first connected monitor of that name.
pub open spec fn path_of(live: Seq<LiveMonitor>, name: Seq<char>) -> Option<Seq<char>> {
    match order::first_where(live.len(), name_test(live, name)) {
        Some(i) => text::opt_text(live[i].device_path),
        None => None,
    }
}

/// The monitor has no path yet, and one is known now.
pub open spec fn is_filled(s: SavedMonitor, live: Seq<LiveMonitor>) -> bool {
    s.device_path is None && path_of(live, s.stable_id@) is Some
}

/// The monitor has another path than the connected one of the same name.
pub open spec fn conflicts(s: SavedMonitor, live: Seq<LiveMonitor>) -> bool {
    s.device_path is Some && path_of(live, s.stable_id@) is Some && path_of(live, s.stable_id@)
        != text::opt_text(s.device_path)
}

pub open spec fn filled_count(saved: Seq<SavedMonitor>, live: Seq<LiveMonitor>) -> nat
    decreases saved.len(),
{
    if saved.len() == 0 {
        0
    } else {
        filled_count(saved.drop_last(), live) + if is_filled(saved.last(), live) {
            1nat
        } else {
            0nat
        }
    }
}

pub open spec fn conflicting_ids(saved: Seq<SavedMonitor>, live: Seq<LiveMonitor>) -> Seq<
    Seq<char>,
>
    decreases saved.len(),
{
    if saved.len() == 0 {
        Seq::empty()
    } else {
        let before = conflicting_ids(saved.drop_last(), live);
        if conflicts(saved.last(), live) {
            before.push(saved.last().stable_id@)
        } else {
            before
        }
    }
}

/// The monitor with its path filled in where it had none, otherwise as it was.
pub open spec fn is_refreshed(
    now: SavedMonitor,
    before: SavedMonitor,
    live: Seq<LiveMonitor>,
) -> bool {
    if is_filled(before, live) {
        &&& text::opt_text(now.device_path) == path_of(live, before.stable_id@)
        &&& now == (SavedMonitor { device_path: now.device_path, ..before })
    } else {
        now == before
    }
}

fn find_path(live: &[LiveMonitor], name: &str) -> (r: Option<String>)
    ensures
        text::opt_text(r) == path_of(live@, name@),
{
    let ghost test = name_test(live@, name@);
    let mut i: usize = 0;
    while i < live.len()
        invariant
            i <= live@.len(),
            test == name_test(live@, name@),
            forall|k: int| 0 <= k < i ==> !#[trigger] test(k),
        decreases live@.len() - i,
    {
        if text::same_text(live[i].device_name.as_str(), name) {
            proof {
                order::lemma_first_where_some(live@.len(), test, i as int);
            }
            return match &live[i].device_path {
                Some(p) => Some(p.clone()),
                None => None,
            };
        }
        i += 1;
    }
    proof {
        order::lemma_first_where_none(live@.len(), test);
    }
    None
}

/// Writes the paths of the connected monitors into the saved ones that have none. A path that is
/// there is never overwritten, since the names may have been handed out anew.
pub fn refresh_device_paths(config: &mut AppConfig, live: &[LiveMonitor]) -> (r: RefreshOutcome)
    ensures
        *final(config) == (AppConfig { monitors: final(config).monitors, ..*old(config) }),
        final(config).monitors@.len() == old(config).monitors@.len(),
        forall|i: int|
            0 <= i < final(config).monitors@.len() ==> is_refreshed(
                #[trigger] final(config).monitors@[i],
                old(config).monitors@[i],
                live@,
            ),
        r.filled == filled_count(old(config).monitors@, live@),
        text::texts(r.conflicting@) == conflicting_ids(old(config).monitors@, live@),
{
    let ghost before = config.monitors@;
    let n: usize = config.monitors.len();
    let mut filled: usize = 0;
    let mut conflicting: Vec<String> = Vec::new();
    let mut i: usize = 0;
    assert(text::texts(conflicting@) =~= conflicting_ids(before.take(0), live@));
    while i < n
        invariant
            i <= n == before.len(),
            before == old(config).monitors@,
            config.monitors@.len() == n,
            *config == (AppConfig { monitors: config.monitors, ..*old(config) }),
            forall|k: int|
                0 <= k < i ==> is_refreshed(#[trigger] config.monitors@[k], before[k], live@),
            forall|k: int| i <= k < n ==> #[trigger] config.monitors@[k] == before[k],
            filled <= i,
            filled == filled_count(before.take(i as int), live@),
            text::texts(conflicting@) == conflicting_ids(before.take(i as int), live@),
        decreases n - i,
    {
        let ghost ids = conflicting@;
        proof {
            assert(before.take(i + 1).drop_last() =~= before.take(i as int));
            assert(before.take(i + 1).last() == before[i as int]);
            assert(config.monitors@[i as int] == before[i as int]);
        }
        let found = find_path(live, config.monitors[i].stable_id.as_str());
        if let Some(path) = found {
            let known = match &config.monitors[i].device_path {
                Some(saved) => Some(text::same_text(saved.as_str(), path.as_str())),
                None => None,
            };
            match known {
                None => {
                    config.monitors[i].device_path = Some(path);
                    filled += 1;
                },
                Some(same) => {
                    if !same {
                        conflicting.push(config.monitors[i].stable_id.clone());
                        assert(text::texts(conflicting@) =~= text::texts(ids).push(
                            before[i as int].stable_id@,
                        ));
                    }
                },
            }
        }
        i += 1;
    }
    assert(before.take(n as int) =~= before);
    RefreshOutcome { filled, conflicting }
}

/// A path that is known is never changed, and once the paths are refreshed there is nothing left
/// to fill in.
pub proof fn law_refresh_settles(now: SavedMonitor, before: SavedMonitor, live: Seq<LiveMonitor>)
    requires
        is_refreshed(now, before, live),
    ensures
        before.device_path is Some ==> now == before,
        !is_filled(now, live),
        conflicts(now, live) == conflicts(before, live),
{
}

/// The pairs are those of each saved monitor with its mate.
spec fn with_mates(
    pairs: Seq<(Seq<char>, Seq<char>)>,
    saved: Seq<SavedMonitor>,
    live: Seq<LiveMonitor>,
    mates: Seq<int>,
) -> bool {
    forall|i: int|
        0 <= i < pairs.len() ==> #[trigger] pairs[i] == (
            saved[i].stable_id@,
            live[mates[i]].device_name@,
        )
}

/// Each saved monitor has a connected mate, no two have the same one, and the names are different.
pub open spec fn are_mates(
    saved: Seq<SavedMonitor>,
    live: Seq<LiveMonitor>,
    mates: Seq<int>,
) -> bool {
    &&& mates.len() == saved.len()
    &&& forall|i: int| 0 <= i < saved.len() ==> 0 <= (#[trigger] mates[i]) < live.len()
    &&& forall|i: int, j: int|
        0 <= i < j < saved.len() ==> (#[trigger] mates[i]) != (#[trigger] mates[j])
    &&& forall|i: int, j: int|
        0 <= i < j < live.len() ==> (#[trigger] live[i]).device_name@ != (
        #[trigger] live[j]).device_name@
}

proof fn lemma_mate_is_free(
    pairs: Seq<(Seq<char>, Seq<char>)>,
    saved: Seq<SavedMonitor>,
    live: Seq<LiveMonitor>,
    mates: Seq<int>,
)
    requires
        are_mates(saved, live, mates),
        pairs.len() < saved.len(),
        with_mates(pairs, saved, live, mates),
    ensures
        !taken(pairs, live[mates[pairs.len() as int]].device_name@),
{
    let n = pairs.len() as int;
    let name = live[mates[n]].device_name@;
    if taken(pairs, name) {
        let i = choose|i: int| 0 <= i < pairs.len() && (#[trigger] pairs[i]).1 == name;
        let (a, b) = (mates[i], mates[n]);
        assert(a != b);
        if a < b {
            assert(live[a].device_name@ != live[b].device_name@);
        } else {
            assert(live[b].device_name@ != live[a].device_name@);
        }
    }
}

proof fn lemma_mates_by_path(
    saved: Seq<SavedMonitor>,
    live: Seq<LiveMonitor>,
    mates: Seq<int>,
    n: nat,
)
    requires
        n <= saved.len(),
        are_mates(saved, live, mates),
        forall|i: int, k: int|
            0 <= i < saved.len() && 0 <= k < live.len() ==> (same_path(
                #[trigger] saved[i],
                #[trigger] live[k],
            ) <==> k == mates[i]),
    ensures
        paired_by_path(saved, live, n).len() == n,
        with_mates(paired_by_path(saved, live, n), saved, live, mates),
    decreases n,
{
    if n > 0 {
        lemma_mates_by_path(saved, live, mates, (n - 1) as nat);
        let before = paired_by_path(saved, live, (n - 1) as nat);
        let s = saved[n - 1];
        let test = path_test(s, live, before);
        lemma_mate_is_free(before, saved, live, mates);
        let k = mates[n - 1];
        assert(same_path(s, live[k]));
        assert(test(k));
        assert forall|j: int| 0 <= j < k implies !#[trigger] test(j) by {
            assert(same_path(s, live[j]) <==> j == k);
        }
        order::lemma_first_where_some(live.len(), test, k);
    }
}

proof fn lemma_all_found(
    saved: Seq<SavedMonitor>,
    live: Seq<LiveMonitor>,
    mates: Seq<int>,
    i: int,
)
    requires
        distinct_ids(saved),
        are_mates(saved, live, mates),
        paired(saved, live, saved.len()).len() == saved.len(),
        with_mates(paired(saved, live, saved.len()), saved, live, mates),
        0 <= i < saved.len(),
    ensures
        renamed(saved[i].stable_id@, plan(saved, live)) == live[mates[i]].device_name@,
{
    let pairs = paired(saved, live, saved.len());
    lemma_firsts(saved, live, saved.len());
    if collides(saved, pairs, renames_of(pairs)) {
        let j = choose|j: int|
            0 <= j < saved.len() && !matched(pairs, (#[trigger] saved[j]).stable_id@) && given(
                renames_of(pairs),
                saved[j].stable_id@,
            );
        assert(pairs[j].0 == saved[j].stable_id@);
    }
    lemma_pair_is_renaming(pairs, i);
    assert(pairs[i] == (saved[i].stable_id@, live[mates[i]].device_name@));
}

/// A monitor is known by its path: where each saved monitor has the path of exactly one connected
/// one, and no two that of the same, each takes the name of the monitor that has its path, whatever
/// the names were and wherever the monitors are now.
pub proof fn law_monitors_are_known_by_their_paths(
    saved: Seq<SavedMonitor>,
    live: Seq<LiveMonitor>,
    mates: Seq<int>,
    i: int,
)
    requires
        distinct_ids(saved),
        are_mates(saved, live, mates),
        forall|a: int, k: int|
            0 <= a < saved.len() && 0 <= k < live.len() ==> ((#[trigger] saved[a]).device_path is Some
                && (#[trigger] live[k]).device_path is Some && saved[a].device_path->0@
                == live[k].device_path->0@ <==> k == mates[a]),
        0 <= i < saved.len(),
    ensures
        renamed(saved[i].stable_id@, plan(saved, live)) == live[mates[i]].device_name@,
{
    assert forall|a: int, k: int| 0 <= a < saved.len() && 0 <= k < live.len() implies (same_path(
        #[trigger] saved[a],
        #[trigger] live[k],
    ) <==> k == mates[a]) by {}
    lemma_mates_by_path(saved, live, mates, saved.len());
    lemma_nothing_by_place(saved, live, saved.len());
    lemma_all_found(saved, live, mates, i);
}

proof fn lemma_nothing_by_place(saved: Seq<SavedMonitor>, live: Seq<LiveMonitor>, n: nat)
    requires
        n <= saved.len(),
        paired_by_path(saved, live, saved.len()).len() == saved.len(),
        forall|i: int|
            0 <= i < saved.len() ==> (#[trigger] paired_by_path(saved, live, saved.len())[i]).0
                == saved[i].stable_id@,
    ensures
        paired(saved, live, n) == paired_by_path(saved, live, saved.len()),
    decreases n,
{
    if n > 0 {
        lemma_nothing_by_place(saved, live, (n - 1) as nat);
        let before = paired(saved, live, (n - 1) as nat);
        assert(before[n - 1].0 == saved[n - 1].stable_id@);
        assert(matched(before, saved[n - 1].stable_id@));
    }
}

proof fn lemma_occurs_once(rects: Seq<PixelRect>, i: int)
    requires
        0 <= i < rects.len(),
        forall|j: int| 0 <= j < rects.len() && j != i ==> #[trigger] rects[j] != rects[i],
    ensures
        occurrences(rects, rects[i]) == 1,
    decreases rects.len(),
{
    let rest = rects.drop_last();
    assert(forall|j: int| 0 <= j < rest.len() ==> #[trigger] rest[j] == rects[j]);
    if i == rects.len() - 1 {
        lemma_occurs_never(rest, rects[i]);
    } else {
        lemma_occurs_once(rest, i);
        assert(rects[rects.len() - 1] != rects[i]);
    }
}

proof fn lemma_occurs_never(rects: Seq<PixelRect>, r: PixelRect)
    requires
        forall|j: int| 0 <= j < rects.len() ==> #[trigger] rects[j] != r,
    ensures
        occurrences(rects, r) == 0,
    decreases rects.len(),
{
    if rects.len() > 0 {
        let rest = rects.drop_last();
        assert(forall|j: int| 0 <= j < rest.len() ==> #[trigger] rest[j] == rects[j]);
        lemma_occurs_never(rest, r);
    }
}

proof fn lemma_no_paths(saved: Seq<SavedMonitor>, live: Seq<LiveMonitor>, n: nat)
    requires
        n <= saved.len(),
        forall|i: int| 0 <= i < saved.len() ==> (#[trigger] saved[i]).device_path is None,
    ensures
        paired_by_path(saved, live, n).len() == 0,
    decreases n,
{
    if n > 0 {
        lemma_no_paths(saved, live, (n - 1) as nat);
        let before = paired_by_path(saved, live, (n - 1) as nat);
        let test = path_test(saved[n - 1], live, before);
        assert forall|j: int| 0 <= j < live.len() implies !#[trigger] test(j) by {
            assert(!same_path(saved[n - 1], live[j]));
        }
        order::lemma_first_where_none(live.len(), test);
    }
}

proof fn lemma_mates_by_place(
    saved: Seq<SavedMonitor>,
    live: Seq<LiveMonitor>,
    mates: Seq<int>,
    n: nat,
)
    requires
        n <= saved.len(),
        distinct_ids(saved),
        are_mates(saved, live, mates),
        forall|i: int| 0 <= i < saved.len() ==> (#[trigger] saved[i]).device_path is None,
        forall|a: int, k: int|
            0 <= a < saved.len() && 0 <= k < live.len() ==> ((#[trigger] saved[a]).bounds_px == (
            #[trigger] live[k]).bounds_px <==> k == mates[a]),
    ensures
        paired(saved, live, n).len() == n,
        with_mates(paired(saved, live, n), saved, live, mates),
    decreases n,
{
    if n == 0 {
        lemma_no_paths(saved, live, saved.len());
    } else {
        lemma_mates_by_place(saved, live, mates, (n - 1) as nat);
        let before = paired(saved, live, (n - 1) as nat);
        let s = saved[n - 1];
        let k = mates[n - 1];
        if matched(before, s.stable_id@) {
            let j = choose|j: int| 0 <= j < before.len() && (#[trigger] before[j]).0 == s.stable_id@;
            assert(saved[j].stable_id@ != saved[n - 1].stable_id@);
        }
        assert(s.bounds_px == live[k].bounds_px);
        let (sb, lb) = (saved_bounds(saved), live_bounds(live));
        assert forall|j: int| 0 <= j < sb.len() && j != n - 1 implies #[trigger] sb[j] != sb[n
            - 1] by {
            if saved[j].bounds_px == saved[n - 1].bounds_px {
                assert(saved[j].bounds_px == live[k].bounds_px);
                assert(k == mates[j]);
                if j < n - 1 {
                    assert(mates[j] != mates[n - 1]);
                } else {
                    assert(mates[n - 1] != mates[j]);
                }
            }
        }
        lemma_occurs_once(sb, n - 1);
        assert forall|j: int| 0 <= j < lb.len() && j != k implies #[trigger] lb[j] != lb[k] by {
            assert(saved[n - 1].bounds_px == live[j].bounds_px <==> j == k);
        }
        lemma_occurs_once(lb, k);
        lemma_mate_is_free(before, saved, live, mates);
        let test = bounds_test(s, live, before);
        assert(test(k));
        assert forall|j: int| 0 <= j < k implies !#[trigger] test(j) by {
            assert(saved[n - 1].bounds_px == live[j].bounds_px <==> j == k);
        }
        order::lemma_first_where_some(live.len(), test, k);
    }
}

/// Where no path is known, a monitor is known by its place: where each saved monitor has the place
/// of exactly one connected one, and no two that of the same, each takes the name of the monitor
/// that is in its place.
pub proof fn law_monitors_without_a_path_are_known_by_their_places(
    saved: Seq<SavedMonitor>,
    live: Seq<LiveMonitor>,
    mates: Seq<int>,
    i: int,
)
    requires
        distinct_ids(saved),
        are_mates(saved, live, mates),
        forall|a: int| 0 <= a < saved.len() ==> (#[trigger] saved[a]).device_path is None,
        forall|a: int, k: int|
            0 <= a < saved.len() && 0 <= k < live.len() ==> ((#[trigger] saved[a]).bounds_px == (
            #[trigger] live[k]).bounds_px <==> k == mates[a]),
        0 <= i < saved.len(),
    ensures
        renamed(saved[i].stable_id@, plan(saved, live)) == live[mates[i]].device_name@,
{
    lemma_mates_by_place(saved, live, mates, saved.len());
    lemma_all_found(saved, live, mates, i);
}

/// Renaming gives each name that has a new one exactly that, and leaves every other.
pub proof fn law_only_names_with_a_new_one_change(
    name: Seq<char>,
    m: Map<Seq<char>, Seq<char>>,
)
    ensures
        m.contains_key(name) ==> renamed(name, m) == m[name],
        !m.contains_key(name) ==> renamed(name, m) == name,
{
}

/// The path of the connected monitor of the same name is filled in where none was known; where
/// another one was known, the monitor is told of and stays as it was.
pub proof fn law_paths_are_learned_by_name(
    now: SavedMonitor,
    before: SavedMonitor,
    live: Seq<LiveMonitor>,
    k: int,
)
    requires
        is_refreshed(now, before, live),
        0 <= k < live.len(),
        live[k].device_name@ == before.stable_id@,
        forall|a: int, b: int|
            0 <= a < b < live.len() ==> (#[trigger] live[a]).device_name@ != (
            #[trigger] live[b]).device_name@,
    ensures
        before.device_path is None ==> text::opt_text(now.device_path) == text::opt_text(
            live[k].device_path,
        ),
        before.device_path is Some ==> now.device_path == before.device_path,
        now.stable_id@ == before.stable_id@ && now.device_name@ == before.device_name@
            && now.bounds_px == before.bounds_px,
        conflicts(before, live) <==> before.device_path is Some && live[k].device_path is Some
            && before.device_path->0@ != live[k].device_path->0@,
{
    let test = name_test(live, before.stable_id@);
    assert(test(k));
    assert forall|j: int| 0 <= j < k implies !#[trigger] test(j) by {
        assert(live[j].device_name@ != live[k].device_name@);
    }
    order::lemma_first_where_some(live.len(), test, k);
}

} // verus!
