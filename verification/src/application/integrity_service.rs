//! Checking which live window each registered one is bound to, and dropping the bindings that
//! cannot be right.
//!
//! Nothing is bound anew here: once a wrong binding is dropped, the search for windows finds the
//! right one, or none.

use vstd::prelude::*;
use std::collections::HashMap;

use crate::domain::workset::{ManagedWindow, Workset};
use crate::ids::Uuid;
use crate::maps;
use crate::order;
use crate::text;
use crate::windowing::enumerate::TopLevelWindow;
use crate::windowing::matcher;
use crate::windowing::matcher::WindowMatching;

verus! {

broadcast use vstd::std_specs::hash::group_hash_axioms;

/// Something that is wrong with the bindings or with the registrations.
#[derive(Clone, Debug)]
pub enum Anomaly {
    /// A binding of a registration that is gone.
    StaleBinding { entry: Uuid },
    /// A binding to a live window that the registration's own words speak against.
    ContradictedBinding {
        entry: Uuid,
        workset: String,
        hwnd: isize,
        expected: String,
        actual: String,
    },
    /// Bindings of several registrations to one window, of which these have nothing to show for
    /// it.
    UnjustifiedSharing { hwnd: isize, entries: Vec<Uuid>, worksets: Vec<String> },
    /// Registrations of one program that nothing tells apart.
    IndistinguishableRegistrations {
        executable: String,
        entries: Vec<Uuid>,
        worksets: Vec<String>,
    },
}

/// An [`Anomaly`] as a mathematical value.
pub enum AnomalyView {
    Stale { entry: Uuid },
    Contradicted {
        entry: Uuid,
        workset: Seq<char>,
        hwnd: isize,
        expected: Seq<char>,
        actual: Seq<char>,
    },
    Sharing { hwnd: isize, entries: Seq<Uuid>, worksets: Seq<Seq<char>> },
    Indistinguishable { executable: Seq<char>, entries: Seq<Uuid>, worksets: Seq<Seq<char>> },
}

impl View for Anomaly {
    type V = AnomalyView;

    open spec fn view(&self) -> AnomalyView {
        match self {
            Anomaly::StaleBinding { entry } => AnomalyView::Stale { entry: *entry },
            Anomaly::ContradictedBinding { entry, workset, hwnd, expected, actual } =>
                AnomalyView::Contradicted {
                entry: *entry,
                workset: workset@,
                hwnd: *hwnd,
                expected: expected@,
                actual: actual@,
            },
            Anomaly::UnjustifiedSharing { hwnd, entries, worksets } => AnomalyView::Sharing {
                hwnd: *hwnd,
                entries: entries@,
                worksets: text::texts(worksets@),
            },
            Anomaly::IndistinguishableRegistrations { executable, entries, worksets } =>
                AnomalyView::Indistinguishable {
                executable: executable@,
                entries: entries@,
                worksets: text::texts(worksets@),
            },
        }
    }
}

pub open spec fn anomalies_view(s: Seq<Anomaly>) -> Seq<AnomalyView> {
    s.map_values(|a: Anomaly| a@)
}

/// Something can be done about the anomaly.
pub open spec fn repairable(a: AnomalyView) -> bool {
    !(a is Indistinguishable)
}

/// The registrations whose bindings the anomaly speaks against.
pub open spec fn drops(a: AnomalyView) -> Seq<Uuid> {
    match a {
        AnomalyView::Stale { entry } => seq![entry],
        AnomalyView::Contradicted { entry, .. } => seq![entry],
        AnomalyView::Sharing { entries, .. } => entries,
        AnomalyView::Indistinguishable { .. } => Seq::empty(),
    }
}

impl Anomaly {
    /// Whether something can be done about it; otherwise it is a matter of the configuration.
    pub fn is_repairable(&self) -> (r: bool)
        ensures
            r == repairable(self@),
    {
        match self {
            Anomaly::IndistinguishableRegistrations { .. } => false,
            _ => true,
        }
    }

    /// The registrations whose bindings have to go.
    fn bindings_to_drop(&self) -> (r: Vec<Uuid>)
        ensures
            r@ == drops(self@),
    {
        match self {
            Anomaly::StaleBinding { entry } => {
                let r: Vec<Uuid> = vec![*entry];
                assert(r@ =~= seq![*entry]);
                r
            },
            Anomaly::ContradictedBinding { entry, .. } => {
                let r: Vec<Uuid> = vec![*entry];
                assert(r@ =~= seq![*entry]);
                r
            },
            Anomaly::UnjustifiedSharing { entries, .. } => {
                let mut r: Vec<Uuid> = Vec::new();
                let mut i: usize = 0;
                while i < entries.len()
                    invariant
                        i <= entries@.len(),
                        r@ == entries@.take(i as int),
                    decreases entries@.len() - i,
                {
                    r.push(entries[i]);
                    assert(r@ =~= entries@.take(i + 1));
                    i += 1;
                }
                assert(r@ =~= entries@);
                r
            },
            Anomaly::IndistinguishableRegistrations { .. } => {
                let r: Vec<Uuid> = Vec::new();
                assert(r@ =~= Seq::<Uuid>::empty());
                r
            },
        }
    }
}

/// What was done about the anomalies.
#[derive(Clone, Copy, Debug, PartialEq, Eq, Structural)]
pub struct RepairOutcome {
    /// How many bindings were dropped as wrong.
    pub dropped_bindings: usize,
    /// How many were dropped since their registration is gone.
    pub pruned_stale: usize,
}

impl RepairOutcome {
    pub fn touched_anything(&self) -> (r: bool)
        ensures
            r == (self.dropped_bindings > 0 || self.pruned_stale > 0),
    {
        self.dropped_bindings > 0 || self.pruned_stale > 0
    }
}

/// What a check has found and what was done about it.
#[derive(Clone, Debug)]
pub struct IntegrityReport {
    pub anomalies: Vec<Anomaly>,
    pub repair: RepairOutcome,
}

impl IntegrityReport {
    pub fn is_clean(&self) -> (r: bool)
        ensures
            r == (self.anomalies@.len() == 0 && self.repair.dropped_bindings == 0
                && self.repair.pruned_stale == 0),
    {
        self.anomalies.len() == 0 && !self.repair.touched_anything()
    }

    pub fn detected_anything(&self) -> (r: bool)
        ensures
            r == (self.anomalies@.len() > 0),
    {
        self.anomalies.len() > 0
    }

    pub fn dropped_bindings(&self) -> (r: usize)
        ensures
            r == self.repair.dropped_bindings,
    {
        self.repair.dropped_bindings
    }

    pub fn pruned_stale(&self) -> (r: usize)
        ensures
            r == self.repair.pruned_stale,
    {
        self.repair.pruned_stale
    }

    /// The anomalies that nothing can be done about here.
    pub fn unrepairable(&self) -> (r: Vec<&Anomaly>)
        ensures
            r@ == self.anomalies@.filter(|a: Anomaly| !repairable(a@)).map_values(
                |a: Anomaly| &a,
            ),
    {
        let mut out: Vec<&Anomaly> = Vec::new();
        let ghost test = |a: Anomaly| !repairable(a@);
        let ghost wrap = |a: Anomaly| &a;
        let ghost all = self.anomalies@;
        let mut i: usize = 0;
        proof {
            reveal(Seq::filter);
            assert(out@ =~= all.take(0).filter(test).map_values(wrap));
        }
        while i < self.anomalies.len()
            invariant
                i <= all.len(),
                all == self.anomalies@,
                test == (|a: Anomaly| !repairable(a@)),
                wrap == (|a: Anomaly| &a),
                out@ == all.take(i as int).filter(test).map_values(wrap),
            decreases all.len() - i,
        {
            let ghost kept = all.take(i as int).filter(test);
            proof {
                reveal(Seq::filter);
                assert(all.take(i + 1).drop_last() =~= all.take(i as int));
                assert(all.take(i + 1).last() == all[i as int]);
            }
            if !self.anomalies[i].is_repairable() {
                out.push(&self.anomalies[i]);
                assert(out@ =~= kept.push(all[i as int]).map_values(wrap));
            }
            i += 1;
        }
        assert(all.take(all.len() as int) =~= all);
        out
    }
}

// ---------------------------------------------------------------------------
// What is registered, and what is live
// ---------------------------------------------------------------------------

/// The last of some windows with the id.
pub open spec fn last_with_id(windows: Seq<ManagedWindow>, id: Uuid) -> Option<ManagedWindow>
    decreases windows.len(),
{
    if windows.len() == 0 {
        None
    } else if windows.last().id == id {
        Some(windows.last())
    } else {
        last_with_id(windows.drop_last(), id)
    }
}

/// The registration under an id, with the name of its set.
pub open spec fn registration(worksets: Seq<Workset>, id: Uuid) -> Option<
    (Seq<char>, ManagedWindow),
>
    decreases worksets.len(),
{
    if worksets.len() == 0 {
        None
    } else {
        match last_with_id(worksets.last().windows@, id) {
            Some(w) => Some((worksets.last().name@, w)),
            None => registration(worksets.drop_last(), id),
        }
    }
}

/// The last live window with the handle.
pub open spec fn last_live(live: Seq<TopLevelWindow>, hwnd: isize) -> Option<TopLevelWindow>
    decreases live.len(),
{
    if live.len() == 0 {
        None
    } else if live.last().hwnd == hwnd {
        Some(live.last())
    } else {
        last_live(live.drop_last(), hwnd)
    }
}

/// A registration, with the set that it belongs to.
#[derive(Clone, Copy)]
struct Registration<'a> {
    workset: &'a Workset,
    window: &'a ManagedWindow,
}

fn find_registration<'a>(worksets: &'a [Workset], id: Uuid) -> (r: Option<Registration<'a>>)
    ensures
        match r {
            Some(found) => registration(worksets@, id) == Some(
                (found.workset.name@, *found.window),
            ),
            None => registration(worksets@, id) is None,
        },
{
    let mut i: usize = worksets.len();
    assert(worksets@.take(i as int) =~= worksets@);
    while i > 0
        invariant
            i <= worksets@.len(),
            registration(worksets@, id) == registration(worksets@.take(i as int), id),
        decreases i,
    {
        i -= 1;
        proof {
            assert(worksets@.take(i + 1).drop_last() =~= worksets@.take(i as int));
            assert(worksets@.take(i + 1).last() == worksets@[i as int]);
        }
        let set = &worksets[i];
        let mut k: usize = set.windows.len();
        assert(set.windows@.take(k as int) =~= set.windows@);
        while k > 0
            invariant
                k <= set.windows@.len(),
                i < worksets@.len(),
                *set == worksets@[i as int],
                registration(worksets@, id) == registration(worksets@.take(i + 1), id),
                worksets@.take(i + 1).last() == *set,
                last_with_id(set.windows@, id) == last_with_id(set.windows@.take(k as int), id),
            decreases k,
        {
            k -= 1;
            proof {
                assert(set.windows@.take(k + 1).drop_last() =~= set.windows@.take(k as int));
                assert(set.windows@.take(k + 1).last() == set.windows@[k as int]);
            }
            if set.windows[k].id == id {
                return Some(Registration { workset: set, window: &set.windows[k] });
            }
        }
        assert(last_with_id(set.windows@, id) is None);
    }
    None
}

fn find_last_live(live: &[TopLevelWindow], hwnd: isize) -> (r: Option<&TopLevelWindow>)
    ensures
        match r {
            Some(w) => last_live(live@, hwnd) == Some(*w),
            None => last_live(live@, hwnd) is None,
        },
{
    let mut i: usize = live.len();
    assert(live@.take(i as int) =~= live@);
    while i > 0
        invariant
            i <= live@.len(),
            last_live(live@, hwnd) == last_live(live@.take(i as int), hwnd),
        decreases i,
    {
        i -= 1;
        proof {
            assert(live@.take(i + 1).drop_last() =~= live@.take(i as int));
            assert(live@.take(i + 1).last() == live@[i as int]);
        }
        if live[i].hwnd == hwnd {
            return Some(&live[i]);
        }
    }
    None
}

// ---------------------------------------------------------------------------
// Finding anomalies
// ---------------------------------------------------------------------------

/// The bindings of registrations that are gone.
pub open spec fn stale_among(rows: Seq<(Uuid, isize)>, worksets: Seq<Workset>) -> Seq<AnomalyView>
    decreases rows.len(),
{
    if rows.len() == 0 {
        Seq::empty()
    } else {
        let before = stale_among(rows.drop_last(), worksets);
        if registration(worksets, rows.last().0) is None {
            before.push(AnomalyView::Stale { entry: rows.last().0 })
        } else {
            before
        }
    }
}

/// The registration's own words speak against the window that it is bound to.
pub open spec fn contradicted<M: WindowMatching>(
    matching: M,
    worksets: Seq<Workset>,
    live: Seq<TopLevelWindow>,
    row: (Uuid, isize),
) -> bool {
    match (registration(worksets, row.0), last_live(live, row.1)) {
        (Some((_, window)), Some(w)) => matcher::discriminates(window.matcher)
            && !matching.title_speaks_for(window.matcher, w),
        _ => false,
    }
}

/// The words by which a registration tells its window.
pub open spec fn expected_words(window: ManagedWindow) -> Seq<char> {
    match window.matcher.title_contains {
        Some(s) => s@,
        None => match window.matcher.title_regex {
            Some(s) => s@,
            None => Seq::empty(),
        },
    }
}

pub open spec fn contradicted_among<M: WindowMatching>(
    matching: M,
    rows: Seq<(Uuid, isize)>,
    worksets: Seq<Workset>,
    live: Seq<TopLevelWindow>,
) -> Seq<AnomalyView>
    decreases rows.len(),
{
    if rows.len() == 0 {
        Seq::empty()
    } else {
        let before = contradicted_among(matching, rows.drop_last(), worksets, live);
        let row = rows.last();
        if contradicted(matching, worksets, live, row) {
            let (name, window) = registration(worksets, row.0)->0;
            before.push(
                AnomalyView::Contradicted {
                    entry: row.0,
                    workset: name,
                    hwnd: row.1,
                    expected: expected_words(window),
                    actual: last_live(live, row.1)->0.title@,
                },
            )
        } else {
            before
        }
    }
}

/// The binding is of a registration that is there, and nothing speaks against it so far.
pub open spec fn holds<M: WindowMatching>(
    matching: M,
    worksets: Seq<Workset>,
    live: Seq<TopLevelWindow>,
    row: (Uuid, isize),
) -> bool {
    registration(worksets, row.0) is Some && !contradicted(matching, worksets, live, row)
}

/// The registrations that hold a handle, in the order of the rows.
pub open spec fn holders<M: WindowMatching>(
    matching: M,
    rows: Seq<(Uuid, isize)>,
    worksets: Seq<Workset>,
    live: Seq<TopLevelWindow>,
    hwnd: isize,
) -> Seq<Uuid>
    decreases rows.len(),
{
    if rows.len() == 0 {
        Seq::empty()
    } else {
        let before = holders(matching, rows.drop_last(), worksets, live, hwnd);
        let row = rows.last();
        if row.1 == hwnd && holds(matching, worksets, live, row) {
            before.push(row.0)
        } else {
            before
        }
    }
}

/// The registration has nothing to show for the window being its own.
pub open spec fn unjustified<M: WindowMatching>(
    matching: M,
    worksets: Seq<Workset>,
    window: TopLevelWindow,
    entry: Uuid,
) -> bool {
    match registration(worksets, entry) {
        Some((_, w)) => !matching.title_speaks_for(w.matcher, window),
        None => false,
    }
}

pub open spec fn unjustified_among<M: WindowMatching>(
    matching: M,
    worksets: Seq<Workset>,
    window: TopLevelWindow,
    entries: Seq<Uuid>,
) -> Seq<Uuid>
    decreases entries.len(),
{
    if entries.len() == 0 {
        Seq::empty()
    } else {
        let before = unjustified_among(matching, worksets, window, entries.drop_last());
        if unjustified(matching, worksets, window, entries.last()) {
            before.push(entries.last())
        } else {
            before
        }
    }
}

pub open spec fn set_names(worksets: Seq<Workset>, entries: Seq<Uuid>) -> Seq<Seq<char>> {
    entries.map_values(|e: Uuid| (registration(worksets, e)->0).0)
}

/// What is wrong with one live window being held by several registrations, if anything.
pub open spec fn sharing_of<M: WindowMatching>(
    matching: M,
    rows: Seq<(Uuid, isize)>,
    worksets: Seq<Workset>,
    live: Seq<TopLevelWindow>,
    hwnd: isize,
) -> Option<AnomalyView> {
    let held_by = holders(matching, rows, worksets, live, hwnd);
    match last_live(live, hwnd) {
        Some(window) => {
            let wrong = unjustified_among(matching, worksets, window, held_by);
            if held_by.len() >= 2 && wrong.len() > 0 {
                Some(
                    AnomalyView::Sharing {
                        hwnd,
                        entries: wrong,
                        worksets: set_names(worksets, wrong),
                    },
                )
            } else {
                None
            }
        },
        None => None,
    }
}

/// The anomalies of the windows that the first `n` rows hold, each where it is held first.
pub open spec fn sharing_upto<M: WindowMatching>(
    matching: M,
    rows: Seq<(Uuid, isize)>,
    worksets: Seq<Workset>,
    live: Seq<TopLevelWindow>,
    n: nat,
) -> Seq<AnomalyView>
    decreases n,
{
    if n == 0 {
        Seq::empty()
    } else {
        let before = sharing_upto(matching, rows, worksets, live, (n - 1) as nat);
        let row = rows[n - 1];
        if holds(matching, worksets, live, row) && holders(
            matching,
            rows.take(n - 1),
            worksets,
            live,
            row.1,
        ).len() == 0 {
            match sharing_of(matching, rows, worksets, live, row.1) {
                Some(a) => before.push(a),
                None => before,
            }
        } else {
            before
        }
    }
}

/// A registration without words of its own, by its program.
pub struct Blank {
    pub program: Seq<char>,
    pub id: Uuid,
    pub workset: Seq<char>,
}

pub open spec fn blanks_in(windows: Seq<ManagedWindow>, name: Seq<char>) -> Seq<Blank>
    decreases windows.len(),
{
    if windows.len() == 0 {
        Seq::empty()
    } else {
        let before = blanks_in(windows.drop_last(), name);
        let w = windows.last();
        if matcher::discriminates(w.matcher) {
            before
        } else {
            before.push(
                Blank {
                    program: text::ascii_lower(w.matcher.executable_path@),
                    id: w.id,
                    workset: name,
                },
            )
        }
    }
}

/// The registrations without words of their own, in the order registered.
pub open spec fn blanks(worksets: Seq<Workset>) -> Seq<Blank>
    decreases worksets.len(),
{
    if worksets.len() == 0 {
        Seq::empty()
    } else {
        blanks(worksets.drop_last()) + blanks_in(worksets.last().windows@, worksets.last().name@)
    }
}

pub open spec fn of_program(all: Seq<Blank>, program: Seq<char>) -> Seq<Blank>
    decreases all.len(),
{
    if all.len() == 0 {
        Seq::empty()
    } else {
        let before = of_program(all.drop_last(), program);
        if all.last().program == program {
            before.push(all.last())
        } else {
            before
        }
    }
}

/// The programs of several such registrations, each once, in the order registered.
pub open spec fn shared_programs(all: Seq<Blank>, n: nat) -> Seq<Seq<char>>
    decreases n,
{
    if n == 0 {
        Seq::empty()
    } else {
        let before = shared_programs(all, (n - 1) as nat);
        let b = all[n - 1];
        if of_program(all.take(n - 1), b.program).len() == 0 && of_program(all, b.program).len()
            > 1 {
            before.push(b.program)
        } else {
            before
        }
    }
}

pub open spec fn group_view(all: Seq<Blank>, program: Seq<char>) -> AnomalyView {
    let group = of_program(all, program);
    AnomalyView::Indistinguishable {
        executable: program,
        entries: group.map_values(|b: Blank| b.id),
        worksets: group.map_values(|b: Blank| b.workset),
    }
}

/// The groups of registrations that nothing tells apart, by ascending program.
pub open spec fn alike(worksets: Seq<Workset>) -> Seq<AnomalyView> {
    let all = blanks(worksets);
    order::sorted_of(shared_programs(all, all.len())).map_values(
        |program: Seq<char>| group_view(all, program),
    )
}

/// The bindings as rows.
pub open spec fn rows_in(bindings: Map<Uuid, isize>) -> Seq<(Uuid, isize)> {
    choose|rows: Seq<(Uuid, isize)>| maps::rows_of(rows, bindings)
}

/// Everything that is wrong.
pub open spec fn detected<M: WindowMatching>(
    matching: M,
    worksets: Seq<Workset>,
    live: Seq<TopLevelWindow>,
    bindings: Map<Uuid, isize>,
) -> Seq<AnomalyView> {
    let rows = rows_in(bindings);
    stale_among(rows, worksets) + contradicted_among(matching, rows, worksets, live) + sharing_upto(
        matching,
        rows,
        worksets,
        live,
        rows.len(),
    ) + alike(worksets)
}

fn is_contradicted<M: WindowMatching>(
    matching: &M,
    worksets: &[Workset],
    live: &[TopLevelWindow],
    row: (Uuid, isize),
) -> (r: bool)
    ensures
        r == contradicted(*matching, worksets@, live@, row),
{
    match (find_registration(worksets, row.0), find_last_live(live, row.1)) {
        (Some(reg), Some(w)) => matcher::has_discriminator(&reg.window.matcher)
            && !matching.has_title_evidence(&reg.window.matcher, w),
        _ => false,
    }
}

fn words_of(window: &ManagedWindow) -> (r: String)
    ensures
        r@ == expected_words(*window),
{
    match &window.matcher.title_contains {
        Some(s) => s.clone(),
        None => match &window.matcher.title_regex {
            Some(s) => s.clone(),
            None => String::new(),
        },
    }
}

fn detect_stale(rows: &Vec<(Uuid, isize)>, worksets: &[Workset], found: &mut Vec<Anomaly>)
    ensures
        anomalies_view(final(found)@) == anomalies_view(old(found)@) + stale_among(
            rows@,
            worksets@,
        ),
{
    let ghost start = anomalies_view(found@);
    let mut i: usize = 0;
    assert(start + stale_among(rows@.take(0), worksets@) =~= start);
    while i < rows.len()
        invariant
            i <= rows@.len(),
            anomalies_view(found@) == start + stale_among(rows@.take(i as int), worksets@),
        decreases rows@.len() - i,
    {
        let ghost before = found@;
        proof {
            assert(rows@.take(i + 1).drop_last() =~= rows@.take(i as int));
            assert(rows@.take(i + 1).last() == rows@[i as int]);
        }
        let entry: Uuid = rows[i].0;
        if find_registration(worksets, entry).is_none() {
            found.push(Anomaly::StaleBinding { entry });
            assert(anomalies_view(found@) =~= anomalies_view(before).push(
                AnomalyView::Stale { entry },
            ));
        }
        assert(anomalies_view(found@) =~= start + stale_among(rows@.take(i + 1), worksets@));
        i += 1;
    }
    assert(rows@.take(rows@.len() as int) =~= rows@);
}

fn detect_contradicted<M: WindowMatching>(
    matching: &M,
    rows: &Vec<(Uuid, isize)>,
    worksets: &[Workset],
    live: &[TopLevelWindow],
    found: &mut Vec<Anomaly>,
)
    ensures
        anomalies_view(final(found)@) == anomalies_view(old(found)@) + contradicted_among(
            *matching,
            rows@,
            worksets@,
            live@,
        ),
{
    let ghost start = anomalies_view(found@);
    let mut i: usize = 0;
    assert(start + contradicted_among(*matching, rows@.take(0), worksets@, live@) =~= start);
    while i < rows.len()
        invariant
            i <= rows@.len(),
            anomalies_view(found@) == start + contradicted_among(
                *matching,
                rows@.take(i as int),
                worksets@,
                live@,
            ),
        decreases rows@.len() - i,
    {
        let ghost before = found@;
        proof {
            assert(rows@.take(i + 1).drop_last() =~= rows@.take(i as int));
            assert(rows@.take(i + 1).last() == rows@[i as int]);
        }
        let row = rows[i];
        if is_contradicted(matching, worksets, live, row) {
            if let Some(reg) = find_registration(worksets, row.0) {
                if let Some(w) = find_last_live(live, row.1) {
                    let one = Anomaly::ContradictedBinding {
                        entry: row.0,
                        workset: reg.workset.name.clone(),
                        hwnd: row.1,
                        expected: words_of(reg.window),
                        actual: w.title.clone(),
                    };
                    let ghost ov = one@;
                    found.push(one);
                    assert(anomalies_view(found@) =~= anomalies_view(before).push(ov));
                }
            }
        }
        assert(anomalies_view(found@) =~= start + contradicted_among(
            *matching,
            rows@.take(i + 1),
            worksets@,
            live@,
        ));
        i += 1;
    }
    assert(rows@.take(rows@.len() as int) =~= rows@);
}

fn does_hold<M: WindowMatching>(
    matching: &M,
    worksets: &[Workset],
    live: &[TopLevelWindow],
    row: (Uuid, isize),
) -> (r: bool)
    ensures
        r == holds(*matching, worksets@, live@, row),
{
    find_registration(worksets, row.0).is_some() && !is_contradicted(
        matching,
        worksets,
        live,
        row,
    )
}

/// The registrations that hold a handle among the first `n` rows.
fn collect_holders<M: WindowMatching>(
    matching: &M,
    rows: &Vec<(Uuid, isize)>,
    n: usize,
    worksets: &[Workset],
    live: &[TopLevelWindow],
    hwnd: isize,
) -> (r: Vec<Uuid>)
    requires
        n <= rows@.len(),
    ensures
        r@ == holders(*matching, rows@.take(n as int), worksets@, live@, hwnd),
{
    let mut out: Vec<Uuid> = Vec::new();
    let mut i: usize = 0;
    assert(out@ =~= holders(*matching, rows@.take(0), worksets@, live@, hwnd));
    while i < n
        invariant
            i <= n <= rows@.len(),
            out@ == holders(*matching, rows@.take(i as int), worksets@, live@, hwnd),
        decreases n - i,
    {
        proof {
            assert(rows@.take(i + 1).drop_last() =~= rows@.take(i as int));
            assert(rows@.take(i + 1).last() == rows@[i as int]);
        }
        if rows[i].1 == hwnd && does_hold(matching, worksets, live, rows[i]) {
            out.push(rows[i].0);
        }
        i += 1;
    }
    out
}

fn find_sharing<M: WindowMatching>(
    matching: &M,
    rows: &Vec<(Uuid, isize)>,
    worksets: &[Workset],
    live: &[TopLevelWindow],
    hwnd: isize,
) -> (r: Option<Anomaly>)
    ensures
        match r {
            Some(a) => sharing_of(*matching, rows@, worksets@, live@, hwnd) == Some(a@),
            None => sharing_of(*matching, rows@, worksets@, live@, hwnd) is None,
        },
{
    let held_by = collect_holders(matching, rows, rows.len(), worksets, live, hwnd);
    assert(rows@.take(rows@.len() as int) =~= rows@);
    let window = match find_last_live(live, hwnd) {
        Some(w) => w,
        None => {
            return None;
        },
    };
    let mut wrong: Vec<Uuid> = Vec::new();
    let mut names: Vec<String> = Vec::new();
    let mut i: usize = 0;
    proof {
        assert(wrong@ =~= unjustified_among(*matching, worksets@, *window, held_by@.take(0)));
        assert(text::texts(names@) =~= set_names(worksets@, wrong@));
    }
    while i < held_by.len()
        invariant
            i <= held_by@.len(),
            wrong@ == unjustified_among(*matching, worksets@, *window, held_by@.take(i as int)),
            text::texts(names@) == set_names(worksets@, wrong@),
        decreases held_by@.len() - i,
    {
        proof {
            assert(held_by@.take(i + 1).drop_last() =~= held_by@.take(i as int));
            assert(held_by@.take(i + 1).last() == held_by@[i as int]);
        }
        if let Some(reg) = find_registration(worksets, held_by[i]) {
            if !matching.has_title_evidence(&reg.window.matcher, window) {
                let ghost w0 = wrong@;
                let ghost n0 = names@;
                wrong.push(held_by[i]);
                names.push(reg.workset.name.clone());
                proof {
                    assert(text::texts(names@) =~= text::texts(n0).push(reg.workset.name@));
                    assert(set_names(worksets@, wrong@) =~= set_names(worksets@, w0).push(
                        reg.workset.name@,
                    ));
                }
            }
        }
        i += 1;
    }
    assert(held_by@.take(held_by@.len() as int) =~= held_by@);
    if held_by.len() >= 2 && wrong.len() > 0 {
        Some(Anomaly::UnjustifiedSharing { hwnd, entries: wrong, worksets: names })
    } else {
        None
    }
}

fn detect_sharing<M: WindowMatching>(
    matching: &M,
    rows: &Vec<(Uuid, isize)>,
    worksets: &[Workset],
    live: &[TopLevelWindow],
    found: &mut Vec<Anomaly>,
)
    ensures
        anomalies_view(final(found)@) == anomalies_view(old(found)@) + sharing_upto(
            *matching,
            rows@,
            worksets@,
            live@,
            rows@.len(),
        ),
{
    let ghost start = anomalies_view(found@);
    let mut i: usize = 0;
    assert(start + sharing_upto(*matching, rows@, worksets@, live@, 0) =~= start);
    while i < rows.len()
        invariant
            i <= rows@.len(),
            anomalies_view(found@) == start + sharing_upto(
                *matching,
                rows@,
                worksets@,
                live@,
                i as nat,
            ),
        decreases rows@.len() - i,
    {
        let ghost before = found@;
        let row = rows[i];
        if does_hold(matching, worksets, live, row) {
            let earlier = collect_holders(matching, rows, i, worksets, live, row.1);
            if earlier.len() == 0 {
                if let Some(a) = find_sharing(matching, rows, worksets, live, row.1) {
                    let ghost av = a@;
                    found.push(a);
                    assert(anomalies_view(found@) =~= anomalies_view(before).push(av));
                }
            }
        }
        assert(anomalies_view(found@) =~= start + sharing_upto(
            *matching,
            rows@,
            worksets@,
            live@,
            (i + 1) as nat,
        ));
        i += 1;
    }
}

/// A registration without words of its own.
struct BlankEntry {
    program: String,
    id: Uuid,
    workset: String,
}

spec fn blank_view(b: BlankEntry) -> Blank {
    Blank { program: b.program@, id: b.id, workset: b.workset@ }
}

spec fn blanks_view(s: Seq<BlankEntry>) -> Seq<Blank> {
    s.map_values(|b: BlankEntry| blank_view(b))
}

fn collect_blanks(worksets: &[Workset]) -> (r: Vec<BlankEntry>)
    ensures
        blanks_view(r@) == blanks(worksets@),
{
    let mut out: Vec<BlankEntry> = Vec::new();
    let mut i: usize = 0;
    assert(blanks_view(out@) =~= blanks(worksets@.take(0)));
    while i < worksets.len()
        invariant
            i <= worksets@.len(),
            blanks_view(out@) == blanks(worksets@.take(i as int)),
        decreases worksets@.len() - i,
    {
        let set = &worksets[i];
        let ghost start = blanks_view(out@);
        proof {
            assert(worksets@.take(i + 1).drop_last() =~= worksets@.take(i as int));
            assert(worksets@.take(i + 1).last() == *set);
            assert(start + blanks_in(set.windows@.take(0), set.name@) =~= start);
        }
        let mut k: usize = 0;
        while k < set.windows.len()
            invariant
                k <= set.windows@.len(),
                blanks_view(out@) == start + blanks_in(set.windows@.take(k as int), set.name@),
            decreases set.windows@.len() - k,
        {
            let ghost before = out@;
            proof {
                assert(set.windows@.take(k + 1).drop_last() =~= set.windows@.take(k as int));
                assert(set.windows@.take(k + 1).last() == set.windows@[k as int]);
            }
            let w = &set.windows[k];
            if !matcher::has_discriminator(&w.matcher) {
                let one = BlankEntry {
                    program: text::ascii_lowercase(w.matcher.executable_path.as_str()),
                    id: w.id,
                    workset: set.name.clone(),
                };
                let ghost ov = blank_view(one);
                out.push(one);
                assert(blanks_view(out@) =~= blanks_view(before).push(ov));
            }
            assert(blanks_view(out@) =~= start + blanks_in(set.windows@.take(k + 1), set.name@));
            k += 1;
        }
        assert(set.windows@.take(set.windows@.len() as int) =~= set.windows@);
        i += 1;
    }
    assert(worksets@.take(worksets@.len() as int) =~= worksets@);
    out
}

fn count_of_program(all: &Vec<BlankEntry>, n: usize, program: &str) -> (r: usize)
    requires
        n <= all@.len(),
    ensures
        r == of_program(blanks_view(all@).take(n as int), program@).len(),
{
    let ghost av = blanks_view(all@);
    let mut count: usize = 0;
    let mut i: usize = 0;
    while i < n
        invariant
            i <= n <= all@.len(),
            count <= i,
            av == blanks_view(all@),
            count == of_program(av.take(i as int), program@).len(),
        decreases n - i,
    {
        proof {
            assert(av.take(i + 1).drop_last() =~= av.take(i as int));
            assert(av.take(i + 1).last() == blank_view(all@[i as int]));
        }
        if text::same_text(all[i].program.as_str(), program) {
            count += 1;
        }
        i += 1;
    }
    count
}

fn describe_group(all: &Vec<BlankEntry>, program: &String) -> (r: Anomaly)
    ensures
        r@ == group_view(blanks_view(all@), program@),
{
    let ghost av = blanks_view(all@);
    let mut entries: Vec<Uuid> = Vec::new();
    let mut names: Vec<String> = Vec::new();
    let mut i: usize = 0;
    proof {
        let none = of_program(av.take(0), program@);
        assert(entries@ =~= none.map_values(|b: Blank| b.id));
        assert(text::texts(names@) =~= none.map_values(|b: Blank| b.workset));
    }
    while i < all.len()
        invariant
            i <= all@.len(),
            av == blanks_view(all@),
            entries@ == of_program(av.take(i as int), program@).map_values(|b: Blank| b.id),
            text::texts(names@) == of_program(av.take(i as int), program@).map_values(
                |b: Blank| b.workset,
            ),
        decreases all@.len() - i,
    {
        let ghost group = of_program(av.take(i as int), program@);
        let ghost e0 = entries@;
        let ghost n0 = names@;
        proof {
            assert(av.take(i + 1).drop_last() =~= av.take(i as int));
            assert(av.take(i + 1).last() == blank_view(all@[i as int]));
        }
        if text::same_text(all[i].program.as_str(), program.as_str()) {
            entries.push(all[i].id);
            names.push(all[i].workset.clone());
            proof {
                let now = group.push(av[i as int]);
                assert(entries@ =~= now.map_values(|b: Blank| b.id));
                assert(text::texts(names@) =~= text::texts(n0).push(all@[i as int].workset@));
                assert(text::texts(names@) =~= now.map_values(|b: Blank| b.workset));
            }
        }
        i += 1;
    }
    assert(av.take(av.len() as int) =~= av);
    Anomaly::IndistinguishableRegistrations {
        executable: program.clone(),
        entries,
        worksets: names,
    }
}

/// The groups of registrations of one program that nothing tells apart.
pub fn indistinguishable(worksets: &[Workset]) -> (r: Vec<Anomaly>)
    ensures
        anomalies_view(r@) == alike(worksets@),
{
    let all = collect_blanks(worksets);
    let ghost av = blanks_view(all@);
    let mut programs: Vec<String> = Vec::new();
    let mut i: usize = 0;
    assert(text::texts(programs@) =~= shared_programs(av, 0));
    while i < all.len()
        invariant
            i <= all@.len(),
            av == blanks_view(all@),
            text::texts(programs@) == shared_programs(av, i as nat),
        decreases all@.len() - i,
    {
        let ghost p0 = programs@;
        assert(av[i as int] == blank_view(all@[i as int]));
        assert(av.take(av.len() as int) =~= av);
        if count_of_program(&all, i, all[i].program.as_str()) == 0 && count_of_program(
            &all,
            all.len(),
            all[i].program.as_str(),
        ) > 1 {
            programs.push(all[i].program.clone());
            assert(text::texts(programs@) =~= text::texts(p0).push(av[i as int].program));
        }
        i += 1;
    }
    let sorted = order::sorted_texts(&programs);
    let ghost sv = text::texts(sorted@);
    let ghost whole = sv.map_values(|program: Seq<char>| group_view(av, program));
    let mut out: Vec<Anomaly> = Vec::new();
    let mut k: usize = 0;
    assert(anomalies_view(out@) =~= whole.take(0));
    while k < sorted.len()
        invariant
            k <= sorted@.len(),
            av == blanks_view(all@),
            sv == text::texts(sorted@),
            whole == sv.map_values(|program: Seq<char>| group_view(av, program)),
            anomalies_view(out@) == whole.take(k as int),
        decreases sorted@.len() - k,
    {
        let ghost o0 = out@;
        let one = describe_group(&all, &sorted[k]);
        let ghost ov = one@;
        out.push(one);
        proof {
            assert(sv[k as int] == sorted@[k as int]@);
            assert(anomalies_view(out@) =~= anomalies_view(o0).push(ov));
            assert(whole.take(k + 1) =~= whole.take(k as int).push(whole[k as int]));
        }
        k += 1;
    }
    assert(anomalies_view(out@) =~= whole);
    out
}

/// Everything that is wrong with the bindings, and with the registrations themselves. Nothing is
/// changed.
pub fn detect<M: WindowMatching>(
    matching: &M,
    worksets: &[Workset],
    live_windows: &[TopLevelWindow],
    bindings: &HashMap<Uuid, isize>,
) -> (r: Vec<Anomaly>)
    ensures
        anomalies_view(r@) == detected(*matching, worksets@, live_windows@, bindings@),
{
    let rows = maps::sorted_rows(bindings);
    proof {
        maps::lemma_rows_unique(rows@, rows_in(bindings@), bindings@);
    }
    let mut found: Vec<Anomaly> = Vec::new();
    assert(anomalies_view(found@) =~= Seq::<AnomalyView>::empty());
    detect_stale(&rows, worksets, &mut found);
    detect_contradicted(matching, &rows, worksets, live_windows, &mut found);
    detect_sharing(matching, &rows, worksets, live_windows, &mut found);
    let mut more = indistinguishable(worksets);
    let ghost f0 = found@;
    let ghost m0 = more@;
    found.append(&mut more);
    proof {
        assert(found@ =~= f0 + m0);
        assert(anomalies_view(found@) =~= anomalies_view(f0) + anomalies_view(m0));
        assert(Seq::<AnomalyView>::empty() + stale_among(rows@, worksets@) =~= stale_among(
            rows@,
            worksets@,
        ));
    }
    found
}

// ---------------------------------------------------------------------------
// Dropping what is wrong
// ---------------------------------------------------------------------------

/// The bindings while anomalies are taken care of, and what has been dropped so far.
pub struct Repairing {
    pub bindings: Map<Uuid, isize>,
    pub dropped: nat,
    pub pruned: nat,
}

pub open spec fn drop_one(s: Repairing, entry: Uuid, stale: bool) -> Repairing {
    if !s.bindings.contains_key(entry) {
        s
    } else if stale {
        Repairing { bindings: s.bindings.remove(entry), dropped: s.dropped, pruned: s.pruned + 1 }
    } else {
        Repairing { bindings: s.bindings.remove(entry), dropped: s.dropped + 1, pruned: s.pruned }
    }
}

pub open spec fn drop_all(s: Repairing, entries: Seq<Uuid>, stale: bool) -> Repairing
    decreases entries.len(),
{
    if entries.len() == 0 {
        s
    } else {
        drop_one(drop_all(s, entries.drop_last(), stale), entries.last(), stale)
    }
}

/// What taking care of some anomalies comes to.
pub open spec fn repaired(anomalies: Seq<AnomalyView>, bindings: Map<Uuid, isize>) -> Repairing
    decreases anomalies.len(),
{
    if anomalies.len() == 0 {
        Repairing { bindings, dropped: 0, pruned: 0 }
    } else {
        drop_all(
            repaired(anomalies.drop_last(), bindings),
            drops(anomalies.last()),
            anomalies.last() is Stale,
        )
    }
}

/// Drops every binding that the anomalies speak against, and nothing else.
pub fn repair(anomalies: &[Anomaly], bindings: &mut HashMap<Uuid, isize>) -> (r: RepairOutcome)
    ensures
        ({
            let done = repaired(anomalies_view(anomalies@), old(bindings)@);
            &&& final(bindings)@ == done.bindings
            &&& r.dropped_bindings == done.dropped
            &&& r.pruned_stale == done.pruned
        }),
{
    let ghost start = bindings@;
    let ghost av = anomalies_view(anomalies@);
    let n: usize = bindings.len();
    let mut dropped: usize = 0;
    let mut pruned: usize = 0;
    let mut i: usize = 0;
    while i < anomalies.len()
        invariant
            i <= anomalies@.len(),
            av == anomalies_view(anomalies@),
            dropped + pruned + bindings@.dom().len() == n,
            repaired(av.take(i as int), start) == (Repairing {
                bindings: bindings@,
                dropped: dropped as nat,
                pruned: pruned as nat,
            }),
        decreases anomalies@.len() - i,
    {
        proof {
            assert(av.take(i + 1).drop_last() =~= av.take(i as int));
            assert(av.take(i + 1).last() == anomalies@[i as int]@);
        }
        let ghost before = repaired(av.take(i as int), start);
        let stale = match &anomalies[i] {
            Anomaly::StaleBinding { .. } => true,
            _ => false,
        };
        let entries = anomalies[i].bindings_to_drop();
        let mut k: usize = 0;
        assert(entries@.take(0) =~= Seq::<Uuid>::empty());
        while k < entries.len()
            invariant
                k <= entries@.len(),
                dropped + pruned + bindings@.dom().len() == n,
                drop_all(before, entries@.take(k as int), stale) == (Repairing {
                    bindings: bindings@,
                    dropped: dropped as nat,
                    pruned: pruned as nat,
                }),
            decreases entries@.len() - k,
        {
            proof {
                assert(entries@.take(k + 1).drop_last() =~= entries@.take(k as int));
                assert(entries@.take(k + 1).last() == entries@[k as int]);
            }
            let ghost b0 = bindings@;
            let entry: Uuid = entries[k];
            let was = bindings.remove(&entry);
            if was.is_some() {
                assert(b0.contains_key(entry));
                assert(bindings@ =~= b0.remove(entry));
                assert(bindings@.dom() =~= b0.dom().remove(entry));
                if stale {
                    pruned += 1;
                } else {
                    dropped += 1;
                }
            } else {
                assert(!b0.contains_key(entry));
                assert(bindings@ =~= b0);
            }
            k += 1;
        }
        assert(entries@.take(entries@.len() as int) =~= entries@);
        i += 1;
    }
    assert(av.take(av.len() as int) =~= av);
    RepairOutcome { dropped_bindings: dropped, pruned_stale: pruned }
}

/// Looks for anomalies, and drops the bindings that cannot be right. Where nothing can be done,
/// the bindings are not touched.
pub fn check_and_repair<M: WindowMatching>(
    matching: &M,
    worksets: &[Workset],
    live_windows: &[TopLevelWindow],
    bindings: &mut HashMap<Uuid, isize>,
) -> (r: IntegrityReport)
    ensures
        ({
            let found = detected(*matching, worksets@, live_windows@, old(bindings)@);
            let done = repaired(found, old(bindings)@);
            &&& anomalies_view(r.anomalies@) == found
            &&& final(bindings)@ == done.bindings
            &&& r.repair.dropped_bindings == done.dropped
            &&& r.repair.pruned_stale == done.pruned
            &&& (forall|i: int| 0 <= i < found.len() ==> !repairable(#[trigger] found[i]))
                ==> final(bindings)@ == old(bindings)@
        }),
{
    let anomalies = detect(matching, worksets, live_windows, bindings);
    let ghost av = anomalies_view(anomalies@);
    let mut any = false;
    let mut i: usize = 0;
    while i < anomalies.len()
        invariant
            i <= anomalies@.len(),
            av == anomalies_view(anomalies@),
            any == exists|k: int| 0 <= k < i && repairable(#[trigger] av[k]),
        decreases anomalies@.len() - i,
    {
        assert(av[i as int] == anomalies@[i as int]@);
        if anomalies[i].is_repairable() {
            any = true;
        }
        i += 1;
    }
    proof {
        if !any {
            lemma_nothing_to_repair(av, bindings@);
        }
    }
    let outcome = if any {
        repair(anomalies.as_slice(), bindings)
    } else {
        RepairOutcome { dropped_bindings: 0, pruned_stale: 0 }
    };
    IntegrityReport { anomalies, repair: outcome }
}

proof fn lemma_nothing_to_repair(anomalies: Seq<AnomalyView>, bindings: Map<Uuid, isize>)
    requires
        forall|i: int| 0 <= i < anomalies.len() ==> !repairable(#[trigger] anomalies[i]),
    ensures
        repaired(anomalies, bindings) == (Repairing { bindings, dropped: 0, pruned: 0 }),
    decreases anomalies.len(),
{
    if anomalies.len() > 0 {
        assert forall|i: int| 0 <= i < anomalies.drop_last().len() implies !repairable(
            #[trigger] anomalies.drop_last()[i],
        ) by {
            assert(anomalies.drop_last()[i] == anomalies[i]);
        }
        lemma_nothing_to_repair(anomalies.drop_last(), bindings);
        assert(!repairable(anomalies[anomalies.len() - 1]));
    }
}

// ---------------------------------------------------------------------------
// What holds of every repair
// ---------------------------------------------------------------------------

/// Some anomaly speaks against the binding of the registration.
pub open spec fn spoken_against(anomalies: Seq<AnomalyView>, entry: Uuid) -> bool {
    exists|i: int| 0 <= i < anomalies.len() && drops(#[trigger] anomalies[i]).contains(entry)
}

proof fn lemma_drop_all(s: Repairing, entries: Seq<Uuid>, stale: bool)
    ensures
        forall|id: Uuid| #[trigger]
            drop_all(s, entries, stale).bindings.contains_key(id) <==> s.bindings.contains_key(id)
                && !entries.contains(id),
        forall|id: Uuid| #[trigger]
            drop_all(s, entries, stale).bindings.contains_key(id) ==> drop_all(
                s,
                entries,
                stale,
            ).bindings[id] == s.bindings[id],
    decreases entries.len(),
{
    if entries.len() > 0 {
        let rest = entries.drop_last();
        lemma_drop_all(s, rest, stale);
        assert forall|id: Uuid| entries.contains(id) <==> #[trigger] rest.contains(id) || id
            == entries.last() by {
            if entries.contains(id) {
                let k = choose|k: int| 0 <= k < entries.len() && entries[k] == id;
                if k < rest.len() {
                    assert(rest[k] == id);
                }
            }
            if rest.contains(id) {
                let k = choose|k: int| 0 <= k < rest.len() && rest[k] == id;
                assert(entries[k] == id);
            }
            assert(entries[entries.len() - 1] == entries.last());
        }
        assert forall|id: Uuid| #[trigger] drop_all(s, entries, stale).bindings.contains_key(id)
            <==> s.bindings.contains_key(id) && !entries.contains(id) by {
            assert(drop_all(s, rest, stale).bindings.contains_key(id) <==> s.bindings.contains_key(
                id,
            ) && !rest.contains(id));
        }
        assert forall|id: Uuid| #[trigger]
            drop_all(s, entries, stale).bindings.contains_key(id) implies drop_all(
            s,
            entries,
            stale,
        ).bindings[id] == s.bindings[id] by {
            assert(drop_all(s, rest, stale).bindings.contains_key(id));
        }
    }
}

/// A repair drops exactly the bindings that some anomaly speaks against, and changes no other.
pub proof fn law_repair_drops_exactly_what_was_found(
    anomalies: Seq<AnomalyView>,
    bindings: Map<Uuid, isize>,
)
    ensures
        forall|id: Uuid| #[trigger]
            repaired(anomalies, bindings).bindings.contains_key(id) <==> bindings.contains_key(id)
                && !spoken_against(anomalies, id),
        forall|id: Uuid| #[trigger]
            repaired(anomalies, bindings).bindings.contains_key(id) ==> repaired(
                anomalies,
                bindings,
            ).bindings[id] == bindings[id],
    decreases anomalies.len(),
{
    if anomalies.len() > 0 {
        let rest = anomalies.drop_last();
        let last = anomalies[anomalies.len() - 1];
        law_repair_drops_exactly_what_was_found(rest, bindings);
        let before = repaired(rest, bindings);
        lemma_drop_all(before, drops(last), last is Stale);
        assert forall|id: Uuid| spoken_against(anomalies, id) <==> #[trigger] spoken_against(
            rest,
            id,
        ) || drops(last).contains(id) by {
            if spoken_against(anomalies, id) {
                let k = choose|k: int|
                    0 <= k < anomalies.len() && drops(#[trigger] anomalies[k]).contains(id);
                if k < rest.len() {
                    assert(rest[k] == anomalies[k]);
                }
            }
            if spoken_against(rest, id) {
                let k = choose|k: int| 0 <= k < rest.len() && drops(#[trigger] rest[k]).contains(id);
                assert(anomalies[k] == rest[k]);
            }
        }
        assert forall|id: Uuid| #[trigger]
            repaired(anomalies, bindings).bindings.contains_key(id) <==> bindings.contains_key(id)
            && !spoken_against(anomalies, id) by {
            assert(before.bindings.contains_key(id) <==> bindings.contains_key(id)
                && !spoken_against(rest, id));
        }
        assert forall|id: Uuid| #[trigger]
            repaired(anomalies, bindings).bindings.contains_key(id) implies repaired(
            anomalies,
            bindings,
        ).bindings[id] == bindings[id] by {
            assert(before.bindings.contains_key(id));
        }
    } else {
        assert forall|id: Uuid| !#[trigger] spoken_against(anomalies, id) by {}
    }
}

/// A map that is finite can be listed as rows.
proof fn lemma_rows_exist(bindings: Map<Uuid, isize>)
    requires
        bindings.dom().finite(),
    ensures
        maps::rows_of(rows_in(bindings), bindings),
    decreases bindings.dom().len(),
{
    if bindings.dom().len() == 0 {
        let none = Seq::<(Uuid, isize)>::empty();
        assert forall|k: Uuid| !#[trigger] bindings.contains_key(k) by {
            if bindings.contains_key(k) {
                assert(bindings.dom().contains(k));
            }
        }
        assert(maps::rows_of(none, bindings));
    } else {
        let top = greatest(bindings.dom());
        lemma_greatest(bindings.dom());
        let rest = bindings.remove(top);
        assert(rest.dom() =~= bindings.dom().remove(top));
        lemma_rows_exist(rest);
        let before = rows_in(rest);
        let rows = before.push((top, bindings[top]));
        assert forall|i: int, j: int| 0 <= i < j < rows.len() implies (#[trigger] rows[i]).0 < (
        #[trigger] rows[j]).0 by {
            assert(rows[i] == before[i]);
            assert(rest.contains_key(before[i].0));
            if j < before.len() {
                assert(rows[j] == before[j]);
            } else {
                assert(bindings.dom().contains(before[i].0));
            }
        }
        assert forall|i: int| 0 <= i < rows.len() implies bindings.contains_key(
            (#[trigger] rows[i]).0,
        ) && bindings[rows[i].0] == rows[i].1 by {
            if i < before.len() {
                assert(rows[i] == before[i]);
                assert(rest.contains_key(before[i].0));
            }
        }
        assert forall|k: Uuid| #[trigger] bindings.contains_key(k) implies rows.contains(
            (k, bindings[k]),
        ) by {
            if k == top {
                assert(rows[rows.len() - 1] == (k, bindings[k]));
            } else {
                assert(rest.contains_key(k));
                let i = choose|i: int| 0 <= i < before.len() && before[i] == (k, rest[k]);
                assert(rows[i] == (k, bindings[k]));
            }
        }
        assert(maps::rows_of(rows, bindings));
    }
}

spec fn greatest(s: Set<Uuid>) -> Uuid {
    choose|k: Uuid| s.contains(k) && forall|j: Uuid| s.contains(j) ==> j <= k
}

proof fn lemma_greatest(s: Set<Uuid>)
    requires
        s.finite(),
        s.len() > 0,
    ensures
        s.contains(greatest(s)),
        forall|j: Uuid| s.contains(j) ==> j <= greatest(s),
    decreases s.len(),
{
    let a = s.choose();
    let rest = s.remove(a);
    if rest.len() > 0 {
        lemma_greatest(rest);
        let b = greatest(rest);
        let k = if a > b {
            a
        } else {
            b
        };
        assert(s.contains(k) && forall|j: Uuid| s.contains(j) ==> j <= k) by {
            assert forall|j: Uuid| s.contains(j) implies j <= k by {
                if j != a {
                    assert(rest.contains(j));
                }
            }
        }
    } else {
        assert(s.contains(a) && forall|j: Uuid| s.contains(j) ==> j <= a) by {
            assert forall|j: Uuid| s.contains(j) implies j <= a by {
                if j != a {
                    assert(rest.contains(j));
                }
            }
        }
    }
}

proof fn lemma_stale_is_found(rows: Seq<(Uuid, isize)>, worksets: Seq<Workset>, i: int)
    requires
        0 <= i < rows.len(),
        registration(worksets, rows[i].0) is None,
    ensures
        spoken_against(stale_among(rows, worksets), rows[i].0),
    decreases rows.len(),
{
    let rest = rows.drop_last();
    let now = stale_among(rows, worksets);
    if i < rest.len() {
        lemma_stale_is_found(rest, worksets, i);
        let before = stale_among(rest, worksets);
        let k = choose|k: int| 0 <= k < before.len() && drops(#[trigger] before[k]).contains(
            rows[i].0,
        );
        assert(now[k] == before[k]);
    } else {
        let a = now[now.len() - 1];
        assert(drops(a)[0] == rows[i].0);
    }
}

proof fn lemma_contradicted_is_found<M: WindowMatching>(
    matching: M,
    rows: Seq<(Uuid, isize)>,
    worksets: Seq<Workset>,
    live: Seq<TopLevelWindow>,
    i: int,
)
    requires
        0 <= i < rows.len(),
        contradicted(matching, worksets, live, rows[i]),
    ensures
        spoken_against(contradicted_among(matching, rows, worksets, live), rows[i].0),
    decreases rows.len(),
{
    let rest = rows.drop_last();
    let now = contradicted_among(matching, rows, worksets, live);
    if i < rest.len() {
        lemma_contradicted_is_found(matching, rest, worksets, live, i);
        let before = contradicted_among(matching, rest, worksets, live);
        let k = choose|k: int| 0 <= k < before.len() && drops(#[trigger] before[k]).contains(
            rows[i].0,
        );
        assert(now[k] == before[k]);
    } else {
        let a = now[now.len() - 1];
        assert(drops(a)[0] == rows[i].0);
    }
}

/// The holders of a handle are the rows with it that hold.
proof fn lemma_holders<M: WindowMatching>(
    matching: M,
    rows: Seq<(Uuid, isize)>,
    worksets: Seq<Workset>,
    live: Seq<TopLevelWindow>,
    hwnd: isize,
)
    ensures
        forall|i: int|
            0 <= i < rows.len() && (#[trigger] rows[i]).1 == hwnd && holds(
                matching,
                worksets,
                live,
                rows[i],
            ) ==> holders(matching, rows, worksets, live, hwnd).contains(rows[i].0),
        forall|e: Uuid| #[trigger]
            holders(matching, rows, worksets, live, hwnd).contains(e) ==> exists|i: int|
                0 <= i < rows.len() && #[trigger] rows[i] == (e, hwnd) && holds(
                    matching,
                    worksets,
                    live,
                    rows[i],
                ),
    decreases rows.len(),
{
    if rows.len() > 0 {
        let rest = rows.drop_last();
        lemma_holders(matching, rest, worksets, live, hwnd);
        let before = holders(matching, rest, worksets, live, hwnd);
        let now = holders(matching, rows, worksets, live, hwnd);
        assert forall|i: int|
            0 <= i < rows.len() && (#[trigger] rows[i]).1 == hwnd && holds(
                matching,
                worksets,
                live,
                rows[i],
            ) implies now.contains(rows[i].0) by {
            if i < rest.len() {
                assert(rest[i] == rows[i]);
                let k = choose|k: int| 0 <= k < before.len() && before[k] == rows[i].0;
                assert(now[k] == rows[i].0);
            } else {
                assert(now[now.len() - 1] == rows[i].0);
            }
        }
        assert forall|e: Uuid| #[trigger] now.contains(e) implies exists|i: int|
            0 <= i < rows.len() && #[trigger] rows[i] == (e, hwnd) && holds(
                matching,
                worksets,
                live,
                rows[i],
            ) by {
            let k = choose|k: int| 0 <= k < now.len() && now[k] == e;
            if k < before.len() {
                assert(before.contains(e)) by {
                    assert(before[k] == e);
                }
                let i = choose|i: int|
                    0 <= i < rest.len() && #[trigger] rest[i] == (e, hwnd) && holds(
                        matching,
                        worksets,
                        live,
                        rest[i],
                    );
                assert(rows[i] == (e, hwnd));
            } else {
                assert(rows[rows.len() - 1] == (e, hwnd));
            }
        }
    }
}

/// The unjustified ones are exactly those that have nothing to show.
proof fn lemma_unjustified_among<M: WindowMatching>(
    matching: M,
    worksets: Seq<Workset>,
    window: TopLevelWindow,
    entries: Seq<Uuid>,
)
    ensures
        forall|e: Uuid| #[trigger]
            unjustified_among(matching, worksets, window, entries).contains(e)
                <==> entries.contains(e) && unjustified(matching, worksets, window, e),
    decreases entries.len(),
{
    if entries.len() > 0 {
        let rest = entries.drop_last();
        lemma_unjustified_among(matching, worksets, window, rest);
        let before = unjustified_among(matching, worksets, window, rest);
        let now = unjustified_among(matching, worksets, window, entries);
        let last = entries[entries.len() - 1];
        assert forall|e: Uuid| #[trigger] now.contains(e) <==> entries.contains(e) && unjustified(
            matching,
            worksets,
            window,
            e,
        ) by {
            assert(before.contains(e) <==> rest.contains(e) && unjustified(
                matching,
                worksets,
                window,
                e,
            ));
            if now.contains(e) {
                let k = choose|k: int| 0 <= k < now.len() && now[k] == e;
                if k < before.len() {
                    assert(before[k] == e);
                    let m = choose|m: int| 0 <= m < rest.len() && rest[m] == e;
                    assert(entries[m] == e);
                } else {
                    assert(entries[entries.len() - 1] == e);
                }
            }
            if entries.contains(e) && unjustified(matching, worksets, window, e) {
                let m = choose|m: int| 0 <= m < entries.len() && entries[m] == e;
                if m < rest.len() {
                    assert(rest[m] == e);
                    let k = choose|k: int| 0 <= k < before.len() && before[k] == e;
                    assert(now[k] == e);
                } else {
                    assert(now[now.len() - 1] == e);
                }
            }
        }
    }
}

/// A handle that some row holds is reported on at the first row that holds it.
proof fn lemma_sharing_is_found<M: WindowMatching>(
    matching: M,
    rows: Seq<(Uuid, isize)>,
    worksets: Seq<Workset>,
    live: Seq<TopLevelWindow>,
    n: nat,
    i: int,
)
    requires
        0 <= i < n <= rows.len(),
        holds(matching, worksets, live, rows[i]),
        sharing_of(matching, rows, worksets, live, rows[i].1) is Some,
    ensures
        sharing_upto(matching, rows, worksets, live, n).contains(
            sharing_of(matching, rows, worksets, live, rows[i].1)->0,
        ),
    decreases n,
{
    let hwnd = rows[i].1;
    let a = sharing_of(matching, rows, worksets, live, hwnd)->0;
    let before = sharing_upto(matching, rows, worksets, live, (n - 1) as nat);
    let now = sharing_upto(matching, rows, worksets, live, n);
    if i < n - 1 {
        lemma_sharing_is_found(matching, rows, worksets, live, (n - 1) as nat, i);
        let k = choose|k: int| 0 <= k < before.len() && before[k] == a;
        assert(now[k] == a);
    } else {
        let earlier = rows.take(n - 1);
        let held = holders(matching, earlier, worksets, live, hwnd);
        if held.len() == 0 {
            assert(now[now.len() - 1] == a);
        } else {
            lemma_holders(matching, earlier, worksets, live, hwnd);
            assert(held.contains(held[0]));
            let j = choose|j: int|
                0 <= j < earlier.len() && #[trigger] earlier[j] == (held[0], hwnd) && holds(
                    matching,
                    worksets,
                    live,
                    earlier[j],
                );
            assert(rows[j] == earlier[j]);
            lemma_sharing_is_found(matching, rows, worksets, live, (n - 1) as nat, j);
            let k = choose|k: int| 0 <= k < before.len() && before[k] == a;
            assert(now[k] == a);
        }
    }
}

/// Fewer rows have fewer holders.
proof fn lemma_holders_fewer<M: WindowMatching>(
    matching: M,
    few: Seq<(Uuid, isize)>,
    many: Seq<(Uuid, isize)>,
    worksets: Seq<Workset>,
    live: Seq<TopLevelWindow>,
    hwnd: isize,
)
    requires
        holders(matching, few, worksets, live, hwnd).len() >= 2,
        holders(matching, few, worksets, live, hwnd).no_duplicates(),
        forall|i: int| 0 <= i < few.len() ==> many.contains(#[trigger] few[i]),
    ensures
        holders(matching, many, worksets, live, hwnd).len() >= 2,
{
    let a = holders(matching, few, worksets, live, hwnd);
    let b = holders(matching, many, worksets, live, hwnd);
    lemma_holders(matching, few, worksets, live, hwnd);
    lemma_holders(matching, many, worksets, live, hwnd);
    assert(a.contains(a[0]) && a.contains(a[1]));
    let i = choose|i: int|
        0 <= i < few.len() && #[trigger] few[i] == (a[0], hwnd) && holds(
            matching,
            worksets,
            live,
            few[i],
        );
    let j = choose|j: int|
        0 <= j < few.len() && #[trigger] few[j] == (a[1], hwnd) && holds(
            matching,
            worksets,
            live,
            few[j],
        );
    let p = choose|p: int| 0 <= p < many.len() && many[p] == few[i];
    let q = choose|q: int| 0 <= q < many.len() && many[q] == few[j];
    assert(many[p].1 == hwnd && many[q].1 == hwnd);
    assert(b.contains(a[0]) && b.contains(a[1]));
    let x = choose|x: int| 0 <= x < b.len() && b[x] == a[0];
    let y = choose|y: int| 0 <= y < b.len() && b[y] == a[1];
    assert(a[0] != a[1]);
    assert(x != y);
}

/// No registration holds a handle twice.
proof fn lemma_holders_distinct<M: WindowMatching>(
    matching: M,
    rows: Seq<(Uuid, isize)>,
    worksets: Seq<Workset>,
    live: Seq<TopLevelWindow>,
    hwnd: isize,
)
    requires
        forall|i: int, j: int|
            0 <= i < j < rows.len() ==> (#[trigger] rows[i]).0 < (#[trigger] rows[j]).0,
    ensures
        holders(matching, rows, worksets, live, hwnd).no_duplicates(),
    decreases rows.len(),
{
    if rows.len() > 0 {
        let rest = rows.drop_last();
        assert forall|i: int, j: int| 0 <= i < j < rest.len() implies (#[trigger] rest[i]).0 < (
        #[trigger] rest[j]).0 by {
            assert(rest[i] == rows[i] && rest[j] == rows[j]);
        }
        lemma_holders_distinct(matching, rest, worksets, live, hwnd);
        lemma_holders(matching, rest, worksets, live, hwnd);
        let before = holders(matching, rest, worksets, live, hwnd);
        let last = rows[rows.len() - 1];
        if before.contains(last.0) {
            let i = choose|i: int|
                0 <= i < rest.len() && #[trigger] rest[i] == (last.0, hwnd) && holds(
                    matching,
                    worksets,
                    live,
                    rest[i],
                );
            assert(rows[i].0 < last.0);
        }
        let now = holders(matching, rows, worksets, live, hwnd);
        assert forall|i: int, j: int| 0 <= i < now.len() && 0 <= j < now.len() && i != j implies now[i]
            != now[j] by {
            if i < before.len() && j < before.len() {
                assert(now[i] == before[i] && now[j] == before[j]);
            } else if i < before.len() {
                assert(now[i] == before[i]);
                assert(before.contains(before[i]));
            } else if j < before.len() {
                assert(now[j] == before[j]);
                assert(before.contains(before[j]));
            }
        }
    }
}

proof fn lemma_spoken_in_part(
    a: Seq<AnomalyView>,
    b: Seq<AnomalyView>,
    c: Seq<AnomalyView>,
    d: Seq<AnomalyView>,
    entry: Uuid,
)
    requires
        spoken_against(a, entry) || spoken_against(b, entry) || spoken_against(c, entry),
    ensures
        spoken_against(a + b + c + d, entry),
{
    let all = a + b + c + d;
    if spoken_against(a, entry) {
        let k = choose|k: int| 0 <= k < a.len() && drops(#[trigger] a[k]).contains(entry);
        assert(all[k] == a[k]);
    } else if spoken_against(b, entry) {
        let k = choose|k: int| 0 <= k < b.len() && drops(#[trigger] b[k]).contains(entry);
        assert(all[a.len() + k] == b[k]);
    } else {
        let k = choose|k: int| 0 <= k < c.len() && drops(#[trigger] c[k]).contains(entry);
        assert(all[a.len() + b.len() + k] == c[k]);
    }
}

/// Once the bindings are repaired, nothing is found any more that could be repaired.
pub proof fn law_repair_leaves_nothing_to_repair<M: WindowMatching>(
    matching: M,
    worksets: Seq<Workset>,
    live: Seq<TopLevelWindow>,
    bindings: Map<Uuid, isize>,
)
    requires
        bindings.dom().finite(),
    ensures
        ({
            let found = detected(matching, worksets, live, bindings);
            let now = repaired(found, bindings).bindings;
            let again = detected(matching, worksets, live, now);
            forall|i: int| 0 <= i < again.len() ==> !repairable(#[trigger] again[i])
        }),
{
    let found = detected(matching, worksets, live, bindings);
    let now = repaired(found, bindings).bindings;
    law_repair_drops_exactly_what_was_found(found, bindings);
    assert(now.dom().subset_of(bindings.dom())) by {
        assert forall|id: Uuid| now.dom().contains(id) implies bindings.dom().contains(id) by {
            assert(now.contains_key(id));
        }
    }
    vstd::set_lib::lemma_set_subset_finite(bindings.dom(), now.dom());
    lemma_rows_exist(bindings);
    lemma_rows_exist(now);
    let rows = rows_in(bindings);
    let left = rows_in(now);
    let (a, b) = (stale_among(rows, worksets), contradicted_among(matching, rows, worksets, live));
    let c = sharing_upto(matching, rows, worksets, live, rows.len());
    let d = alike(worksets);
    assert(found == a + b + c + d);
    assert forall|i: int| 0 <= i < left.len() implies rows.contains(#[trigger] left[i])
        && !spoken_against(found, left[i].0) by {
        assert(now.contains_key(left[i].0));
        assert(bindings.contains_key(left[i].0));
        assert(rows.contains((left[i].0, bindings[left[i].0])));
    }
    assert forall|i: int| 0 <= i < left.len() implies registration(
        worksets,
        (#[trigger] left[i]).0,
    ) is Some && !contradicted(matching, worksets, live, left[i]) by {
        assert(rows.contains(left[i]));
        let p = choose|p: int| 0 <= p < rows.len() && rows[p] == left[i];
        if registration(worksets, left[i].0) is None {
            lemma_stale_is_found(rows, worksets, p);
            lemma_spoken_in_part(a, b, c, d, left[i].0);
        }
        if contradicted(matching, worksets, live, left[i]) {
            lemma_contradicted_is_found(matching, rows, worksets, live, p);
            lemma_spoken_in_part(a, b, c, d, left[i].0);
        }
    }
    lemma_no_stale(left, worksets);
    lemma_no_contradicted(matching, left, worksets, live);
    assert forall|hwnd: isize| sharing_of(matching, left, worksets, live, hwnd) is None by {
        if sharing_of(matching, left, worksets, live, hwnd) is Some {
            let held = holders(matching, left, worksets, live, hwnd);
            let window = last_live(live, hwnd)->0;
            let wrong = unjustified_among(matching, worksets, window, held);
            let e = wrong[0];
            assert(wrong.contains(e));
            lemma_unjustified_among(matching, worksets, window, held);
            assert(held.contains(e));
            lemma_holders(matching, left, worksets, live, hwnd);
            let i = choose|i: int|
                0 <= i < left.len() && #[trigger] left[i] == (e, hwnd) && holds(
                    matching,
                    worksets,
                    live,
                    left[i],
                );
            assert(rows.contains(left[i]));
            let p = choose|p: int| 0 <= p < rows.len() && rows[p] == left[i];
            lemma_holders_distinct(matching, left, worksets, live, hwnd);
            lemma_holders_fewer(matching, left, rows, worksets, live, hwnd);
            let all = holders(matching, rows, worksets, live, hwnd);
            lemma_holders(matching, rows, worksets, live, hwnd);
            assert(all.contains(rows[p].0));
            lemma_unjustified_among(matching, worksets, window, all);
            assert(unjustified_among(matching, worksets, window, all).contains(e));
            lemma_sharing_is_found(matching, rows, worksets, live, rows.len(), p);
            let s = sharing_of(matching, rows, worksets, live, hwnd)->0;
            let k = choose|k: int| 0 <= k < c.len() && c[k] == s;
            assert(drops(c[k]).contains(e));
            assert(spoken_against(c, e));
            lemma_spoken_in_part(a, b, c, d, e);
        }
    }
    lemma_no_sharing(matching, left, worksets, live, left.len());
    let again = detected(matching, worksets, live, now);
    assert(again =~= alike(worksets));
    assert forall|i: int| 0 <= i < again.len() implies !repairable(#[trigger] again[i]) by {
        assert(again[i] is Indistinguishable);
    }
}

proof fn lemma_no_stale(rows: Seq<(Uuid, isize)>, worksets: Seq<Workset>)
    requires
        forall|i: int|
            0 <= i < rows.len() ==> registration(worksets, (#[trigger] rows[i]).0) is Some,
    ensures
        stale_among(rows, worksets) == Seq::<AnomalyView>::empty(),
    decreases rows.len(),
{
    if rows.len() > 0 {
        assert forall|i: int| 0 <= i < rows.drop_last().len() implies registration(
            worksets,
            (#[trigger] rows.drop_last()[i]).0,
        ) is Some by {
            assert(rows.drop_last()[i] == rows[i]);
        }
        lemma_no_stale(rows.drop_last(), worksets);
        assert(registration(worksets, rows[rows.len() - 1].0) is Some);
    }
}

proof fn lemma_no_contradicted<M: WindowMatching>(
    matching: M,
    rows: Seq<(Uuid, isize)>,
    worksets: Seq<Workset>,
    live: Seq<TopLevelWindow>,
)
    requires
        forall|i: int|
            0 <= i < rows.len() ==> !contradicted(matching, worksets, live, #[trigger] rows[i]),
    ensures
        contradicted_among(matching, rows, worksets, live) == Seq::<AnomalyView>::empty(),
    decreases rows.len(),
{
    if rows.len() > 0 {
        assert forall|i: int| 0 <= i < rows.drop_last().len() implies !contradicted(
            matching,
            worksets,
            live,
            #[trigger] rows.drop_last()[i],
        ) by {
            assert(rows.drop_last()[i] == rows[i]);
        }
        lemma_no_contradicted(matching, rows.drop_last(), worksets, live);
        assert(!contradicted(matching, worksets, live, rows[rows.len() - 1]));
    }
}

proof fn lemma_no_sharing<M: WindowMatching>(
    matching: M,
    rows: Seq<(Uuid, isize)>,
    worksets: Seq<Workset>,
    live: Seq<TopLevelWindow>,
    n: nat,
)
    requires
        n <= rows.len(),
        forall|hwnd: isize| sharing_of(matching, rows, worksets, live, hwnd) is None,
    ensures
        sharing_upto(matching, rows, worksets, live, n) == Seq::<AnomalyView>::empty(),
    decreases n,
{
    if n > 0 {
        lemma_no_sharing(matching, rows, worksets, live, (n - 1) as nat);
    }
}

// ---------------------------------------------------------------------------
// Which bindings stay
// ---------------------------------------------------------------------------

/// A registration is looked up among all windows of all sets, under its own id and with the name of
/// its set; none is found only where no set has a window of that id.
pub proof fn law_registrations_are_found(worksets: Seq<Workset>, id: Uuid)
    ensures
        match registration(worksets, id) {
            Some((name, w)) => w.id == id && exists|k: int|
                0 <= k < worksets.len() && (#[trigger] worksets[k]).name@ == name
                    && worksets[k].windows@.contains(w),
            None => forall|k: int, j: int|
                0 <= k < worksets.len() && 0 <= j < worksets[k].windows@.len() ==> (
                #[trigger] worksets[k].windows@[j]).id != id,
        },
    decreases worksets.len(),
{
    if worksets.len() > 0 {
        let n = worksets.len() - 1;
        let rest = worksets.drop_last();
        law_registrations_are_found(rest, id);
        lemma_last_with_id(worksets.last().windows@, id);
        assert(worksets[n] == worksets.last());
        match last_with_id(worksets.last().windows@, id) {
            Some(w) => {
                assert(worksets[n].name@ == worksets.last().name@);
            },
            None => {
                match registration(rest, id) {
                    Some((name, w)) => {
                        let k = choose|k: int|
                            0 <= k < rest.len() && (#[trigger] rest[k]).name@ == name
                                && rest[k].windows@.contains(w);
                        assert(worksets[k] == rest[k]);
                    },
                    None => {
                        assert forall|k: int, j: int|
                            0 <= k < worksets.len() && 0 <= j < worksets[k].windows@.len() implies (
                        #[trigger] worksets[k].windows@[j]).id != id by {
                            if k < n {
                                assert(rest[k].windows@[j].id != id);
                            }
                        }
                    },
                }
            },
        }
    }
}

proof fn lemma_last_with_id(windows: Seq<ManagedWindow>, id: Uuid)
    ensures
        match last_with_id(windows, id) {
            Some(w) => w.id == id && windows.contains(w),
            None => forall|j: int| 0 <= j < windows.len() ==> (#[trigger] windows[j]).id != id,
        },
    decreases windows.len(),
{
    if windows.len() > 0 {
        let n = windows.len() - 1;
        let rest = windows.drop_last();
        lemma_last_with_id(rest, id);
        if windows.last().id == id {
            assert(windows[n] == windows.last());
        } else {
            match last_with_id(rest, id) {
                Some(w) => {
                    let j = choose|j: int| 0 <= j < rest.len() && rest[j] == w;
                    assert(windows[j] == w);
                },
                None => {
                    assert forall|j: int| 0 <= j < windows.len() implies (
                    #[trigger] windows[j]).id != id by {
                        if j < n {
                            assert(rest[j].id != id);
                        }
                    }
                },
            }
        }
    }
}

proof fn lemma_stale_origin(rows: Seq<(Uuid, isize)>, worksets: Seq<Workset>, e: Uuid)
    requires
        spoken_against(stale_among(rows, worksets), e),
    ensures
        registration(worksets, e) is None,
    decreases rows.len(),
{
    let now = stale_among(rows, worksets);
    let k = choose|k: int| 0 <= k < now.len() && drops(#[trigger] now[k]).contains(e);
    if rows.len() > 0 {
        let before = stale_among(rows.drop_last(), worksets);
        if k < before.len() {
            assert(before[k] == now[k]);
            lemma_stale_origin(rows.drop_last(), worksets, e);
        }
    }
}

proof fn lemma_contradicted_origin<M: WindowMatching>(
    matching: M,
    rows: Seq<(Uuid, isize)>,
    worksets: Seq<Workset>,
    live: Seq<TopLevelWindow>,
    e: Uuid,
) -> (i: int)
    requires
        spoken_against(contradicted_among(matching, rows, worksets, live), e),
    ensures
        0 <= i < rows.len(),
        rows[i].0 == e,
        contradicted(matching, worksets, live, rows[i]),
    decreases rows.len(),
{
    let now = contradicted_among(matching, rows, worksets, live);
    let k = choose|k: int| 0 <= k < now.len() && drops(#[trigger] now[k]).contains(e);
    let before = contradicted_among(matching, rows.drop_last(), worksets, live);
    if k < before.len() {
        assert(before[k] == now[k]);
        lemma_contradicted_origin(matching, rows.drop_last(), worksets, live, e)
    } else {
        rows.len() - 1
    }
}

proof fn lemma_sharing_origin<M: WindowMatching>(
    matching: M,
    rows: Seq<(Uuid, isize)>,
    worksets: Seq<Workset>,
    live: Seq<TopLevelWindow>,
    n: nat,
    e: Uuid,
) -> (hwnd: isize)
    requires
        n <= rows.len(),
        spoken_against(sharing_upto(matching, rows, worksets, live, n), e),
    ensures
        sharing_of(matching, rows, worksets, live, hwnd) is Some,
        drops(sharing_of(matching, rows, worksets, live, hwnd)->0).contains(e),
    decreases n,
{
    let now = sharing_upto(matching, rows, worksets, live, n);
    let k = choose|k: int| 0 <= k < now.len() && drops(#[trigger] now[k]).contains(e);
    let before = sharing_upto(matching, rows, worksets, live, (n - 1) as nat);
    if k < before.len() {
        assert(before[k] == now[k]);
        lemma_sharing_origin(matching, rows, worksets, live, (n - 1) as nat, e)
    } else {
        rows[n - 1].1
    }
}

/// The registration's own words speak against the window.
pub open spec fn words_speak_against<M: WindowMatching>(
    matching: M,
    w: ManagedWindow,
    l: TopLevelWindow,
) -> bool {
    (w.matcher.title_contains is Some || w.matcher.title_regex is Some)
        && !matching.title_speaks_for(w.matcher, l)
}

/// Another registration rightly holds the same handle: it is there, and its own words do not speak
/// against the window.
pub open spec fn is_shared<M: WindowMatching>(
    matching: M,
    worksets: Seq<Workset>,
    bindings: Map<Uuid, isize>,
    id: Uuid,
    l: TopLevelWindow,
) -> bool {
    exists|other: Uuid|
        {
            &&& other != id
            &&& #[trigger] bindings.contains_key(other)
            &&& bindings[other] == bindings[id]
            &&& registration(worksets, other) matches Some((_, w)) && !words_speak_against(
                matching,
                w,
                l,
            )
        }
}

/// A check drops a binding exactly where its registration is gone, where the words of the
/// registration speak against the live window that it is bound to, or where nothing speaks for the
/// window and another registration rightly holds it too. Every other binding stays as it was; so a
/// binding to a window that is not live stays as long as its registration is there.
pub proof fn law_which_bindings_stay<M: WindowMatching>(
    matching: M,
    worksets: Seq<Workset>,
    live: Seq<TopLevelWindow>,
    bindings: Map<Uuid, isize>,
    id: Uuid,
)
    requires
        bindings.dom().finite(),
        bindings.contains_key(id),
    ensures
        ({
            let now = repaired(detected(matching, worksets, live, bindings), bindings).bindings;
            &&& now.contains_key(id) <==> match registration(worksets, id) {
                None => false,
                Some((_, w)) => match last_live(live, bindings[id]) {
                    None => true,
                    Some(l) => !words_speak_against(matching, w, l) && (
                    matching.title_speaks_for(w.matcher, l) || !is_shared(
                        matching,
                        worksets,
                        bindings,
                        id,
                        l,
                    )),
                },
            }
            &&& now.contains_key(id) ==> now[id] == bindings[id]
        }),
{
    let found = detected(matching, worksets, live, bindings);
    law_repair_drops_exactly_what_was_found(found, bindings);
    lemma_rows_exist(bindings);
    let rows = rows_in(bindings);
    let h = bindings[id];
    let (a, b) = (stale_among(rows, worksets), contradicted_among(matching, rows, worksets, live));
    let c = sharing_upto(matching, rows, worksets, live, rows.len());
    let d = alike(worksets);
    assert(found == a + b + c + d);
    assert(rows.contains((id, h)));
    let p = choose|p: int| 0 <= p < rows.len() && rows[p] == (id, h);
    let held = holders(matching, rows, worksets, live, h);
    lemma_holders(matching, rows, worksets, live, h);
    lemma_holders_distinct(matching, rows, worksets, live, h);
    if registration(worksets, id) is None {
        lemma_stale_is_found(rows, worksets, p);
        lemma_spoken_in_part(a, b, c, d, id);
    } else if contradicted(matching, worksets, live, rows[p]) {
        lemma_contradicted_is_found(matching, rows, worksets, live, p);
        lemma_spoken_in_part(a, b, c, d, id);
    } else {
        let w = (registration(worksets, id)->0).1;
        assert(held.contains(rows[p].0));
        if let Some(l) = last_live(live, h) {
            lemma_unjustified_among(matching, worksets, l, held);
            if is_shared(matching, worksets, bindings, id, l) {
                let other = choose|other: Uuid|
                    {
                        &&& other != id
                        &&& #[trigger] bindings.contains_key(other)
                        &&& bindings[other] == bindings[id]
                        &&& registration(worksets, other) matches Some((_, w))
                            && !words_speak_against(matching, w, l)
                    };
                assert(rows.contains((other, h)));
                let q = choose|q: int| 0 <= q < rows.len() && rows[q] == (other, h);
                assert(holds(matching, worksets, live, rows[q]));
                assert(held.contains(rows[q].0));
                let x = choose|x: int| 0 <= x < held.len() && held[x] == id;
                let y = choose|y: int| 0 <= y < held.len() && held[y] == other;
                assert(x != y);
                if !matching.title_speaks_for(w.matcher, l) {
                    let wrong = unjustified_among(matching, worksets, l, held);
                    assert(wrong.contains(id));
                    lemma_sharing_is_found(matching, rows, worksets, live, rows.len(), p);
                    let found_one = sharing_of(matching, rows, worksets, live, h)->0;
                    let k = choose|k: int| 0 <= k < c.len() && c[k] == found_one;
                    assert(drops(c[k]).contains(id));
                    assert(spoken_against(c, id));
                    lemma_spoken_in_part(a, b, c, d, id);
                }
            }
        }
        if spoken_against(found, id) {
            let k = choose|k: int|
                0 <= k < found.len() && drops(#[trigger] found[k]).contains(id);
            if k < a.len() {
                assert(a[k] == found[k]);
                lemma_stale_origin(rows, worksets, id);
            } else if k < a.len() + b.len() {
                assert(b[k - a.len()] == found[k]);
                assert(spoken_against(b, id));
                let i = lemma_contradicted_origin(matching, rows, worksets, live, id);
                lemma_one_row(rows, bindings, i, p);
            } else if k < a.len() + b.len() + c.len() {
                assert(c[k - a.len() - b.len()] == found[k]);
                assert(spoken_against(c, id));
                let hwnd = lemma_sharing_origin(
                    matching,
                    rows,
                    worksets,
                    live,
                    rows.len(),
                    id,
                );
                let by = holders(matching, rows, worksets, live, hwnd);
                let l = last_live(live, hwnd)->0;
                lemma_unjustified_among(matching, worksets, l, by);
                lemma_holders(matching, rows, worksets, live, hwnd);
                assert(by.contains(id));
                let i = choose|i: int|
                    0 <= i < rows.len() && #[trigger] rows[i] == (id, hwnd) && holds(
                        matching,
                        worksets,
                        live,
                        rows[i],
                    );
                lemma_one_row(rows, bindings, i, p);
                assert(hwnd == h);
                let x: int = if held[0] == id {
                    1
                } else {
                    0
                };
                assert(held[0] != held[1]);
                let other = held[x];
                assert(other != id);
                assert(held.contains(other));
                let j = choose|j: int|
                    0 <= j < rows.len() && #[trigger] rows[j] == (other, h) && holds(
                        matching,
                        worksets,
                        live,
                        rows[j],
                    );
                assert(bindings.contains_key(rows[j].0));
                assert(is_shared(matching, worksets, bindings, id, l));
            } else {
                assert(found[k] == d[k - a.len() - b.len() - c.len()]);
                assert(found[k] is Indistinguishable);
            }
        }
    }
}

/// A registration has one row.
proof fn lemma_one_row(rows: Seq<(Uuid, isize)>, bindings: Map<Uuid, isize>, i: int, j: int)
    requires
        maps::rows_of(rows, bindings),
        0 <= i < rows.len(),
        0 <= j < rows.len(),
        rows[i].0 == rows[j].0,
    ensures
        i == j,
{
    if i < j {
        assert(rows[i].0 < rows[j].0);
    } else if j < i {
        assert(rows[j].0 < rows[i].0);
    }
}

proof fn lemma_counts(s: Repairing, entries: Seq<Uuid>, stale: bool)
    requires
        s.bindings.dom().finite(),
    ensures
        ({
            let now = drop_all(s, entries, stale);
            &&& now.bindings.dom().finite()
            &&& now.bindings.dom().len() + now.dropped + now.pruned == s.bindings.dom().len()
                + s.dropped + s.pruned
            &&& stale ==> now.dropped == s.dropped
            &&& !stale ==> now.pruned == s.pruned
        }),
    decreases entries.len(),
{
    if entries.len() > 0 {
        lemma_counts(s, entries.drop_last(), stale);
        let b = drop_all(s, entries.drop_last(), stale);
        if b.bindings.contains_key(entries.last()) {
            assert(b.bindings.remove(entries.last()).dom() =~= b.bindings.dom().remove(
                entries.last(),
            ));
        }
    }
}

/// What is counted is what was dropped: every binding that is gone is counted once.
pub proof fn law_every_dropped_binding_is_counted(
    anomalies: Seq<AnomalyView>,
    bindings: Map<Uuid, isize>,
)
    requires
        bindings.dom().finite(),
    ensures
        repaired(anomalies, bindings).bindings.dom().finite(),
        repaired(anomalies, bindings).bindings.dom().len() + repaired(anomalies, bindings).dropped
            + repaired(anomalies, bindings).pruned == bindings.dom().len(),
        (forall|i: int| 0 <= i < anomalies.len() ==> !(#[trigger] anomalies[i] is Stale))
            ==> repaired(anomalies, bindings).pruned == 0,
        (forall|i: int| 0 <= i < anomalies.len() ==> #[trigger] anomalies[i] is Stale)
            ==> repaired(anomalies, bindings).dropped == 0,
    decreases anomalies.len(),
{
    if anomalies.len() > 0 {
        let rest = anomalies.drop_last();
        law_every_dropped_binding_is_counted(rest, bindings);
        let n = anomalies.len() - 1;
        lemma_counts(repaired(rest, bindings), drops(anomalies.last()), anomalies.last() is Stale);
        assert(forall|i: int| 0 <= i < rest.len() ==> #[trigger] rest[i] == anomalies[i]);
        assert(anomalies[n] == anomalies.last());
    }
}

/// The registration has no words of its own, and is kept as such.
spec fn is_blank_of(b: Blank, set: Workset, w: ManagedWindow) -> bool {
    &&& w.matcher.title_contains is None
    &&& w.matcher.title_regex is None
    &&& b.program == text::ascii_lower(w.matcher.executable_path@)
    &&& b.id == w.id
    &&& b.workset == set.name@
}

proof fn lemma_blank_in(set: Workset, windows: Seq<ManagedWindow>, a: int) -> (x: int)
    requires
        0 <= a < windows.len(),
        windows[a].matcher.title_contains is None,
        windows[a].matcher.title_regex is None,
    ensures
        0 <= x < blanks_in(windows, set.name@).len(),
        is_blank_of(blanks_in(windows, set.name@)[x], set, windows[a]),
    decreases windows.len(),
{
    let rest = windows.drop_last();
    if a < rest.len() {
        lemma_blank_in(set, rest, a)
    } else {
        blanks_in(rest, set.name@).len() as int
    }
}

proof fn lemma_blank_at(worksets: Seq<Workset>, i: int, a: int) -> (x: int)
    requires
        0 <= i < worksets.len(),
        0 <= a < worksets[i].windows@.len(),
        worksets[i].windows@[a].matcher.title_contains is None,
        worksets[i].windows@[a].matcher.title_regex is None,
    ensures
        0 <= x < blanks(worksets).len(),
        is_blank_of(blanks(worksets)[x], worksets[i], worksets[i].windows@[a]),
    decreases worksets.len(),
{
    let rest = worksets.drop_last();
    if i < rest.len() {
        lemma_blank_at(rest, i, a)
    } else {
        let x = lemma_blank_in(worksets[i], worksets[i].windows@, a);
        blanks(rest).len() + x
    }
}

proof fn lemma_blank_from_in(set: Workset, windows: Seq<ManagedWindow>, x: int) -> (a: int)
    requires
        0 <= x < blanks_in(windows, set.name@).len(),
    ensures
        0 <= a < windows.len(),
        is_blank_of(blanks_in(windows, set.name@)[x], set, windows[a]),
    decreases windows.len(),
{
    let rest = windows.drop_last();
    if x < blanks_in(rest, set.name@).len() {
        lemma_blank_from_in(set, rest, x)
    } else {
        windows.len() - 1
    }
}

proof fn lemma_blank_from(worksets: Seq<Workset>, x: int) -> (r: (int, int))
    requires
        0 <= x < blanks(worksets).len(),
    ensures
        0 <= r.0 < worksets.len(),
        0 <= r.1 < worksets[r.0].windows@.len(),
        is_blank_of(blanks(worksets)[x], worksets[r.0], worksets[r.0].windows@[r.1]),
    decreases worksets.len(),
{
    let rest = worksets.drop_last();
    if x < blanks(rest).len() {
        lemma_blank_from(rest, x)
    } else {
        let last = worksets.len() - 1;
        let a = lemma_blank_from_in(
            worksets[last],
            worksets[last].windows@,
            x - blanks(rest).len(),
        );
        (last, a)
    }
}

proof fn lemma_of_program_has(all: Seq<Blank>, program: Seq<char>, x: int) -> (k: int)
    requires
        0 <= x < all.len(),
        all[x].program == program,
    ensures
        0 <= k < of_program(all, program).len(),
        of_program(all, program)[k] == all[x],
    decreases all.len(),
{
    let rest = all.drop_last();
    if x < rest.len() {
        lemma_of_program_has(rest, program, x)
    } else {
        of_program(rest, program).len() as int
    }
}

proof fn lemma_of_program_from(all: Seq<Blank>, program: Seq<char>, k: int) -> (x: int)
    requires
        0 <= k < of_program(all, program).len(),
    ensures
        0 <= x < all.len(),
        all[x] == of_program(all, program)[k],
        all[x].program == program,
    decreases all.len(),
{
    let rest = all.drop_last();
    if k < of_program(rest, program).len() {
        lemma_of_program_from(rest, program, k)
    } else {
        all.len() - 1
    }
}

proof fn lemma_shared_has(all: Seq<Blank>, n: nat, x: int) -> (k: int)
    requires
        0 <= x < n <= all.len(),
        of_program(all, all[x].program).len() > 1,
    ensures
        0 <= k < shared_programs(all, n).len(),
        shared_programs(all, n)[k] == all[x].program,
    decreases n,
{
    let p = all[x].program;
    let before = shared_programs(all, (n - 1) as nat);
    if all[n - 1].program == p && of_program(all.take(n - 1), p).len() == 0 {
        before.len() as int
    } else if all[n - 1].program == p {
        let y = lemma_of_program_from(all.take(n - 1), p, 0);
        assert(all[y] == all.take(n - 1)[y]);
        lemma_shared_has(all, (n - 1) as nat, y)
    } else {
        lemma_shared_has(all, (n - 1) as nat, x)
    }
}

proof fn lemma_shared_are_several(all: Seq<Blank>, n: nat, k: int)
    requires
        n <= all.len(),
        0 <= k < shared_programs(all, n).len(),
    ensures
        of_program(all, shared_programs(all, n)[k]).len() > 1,
    decreases n,
{
    let before = shared_programs(all, (n - 1) as nat);
    if k < before.len() {
        lemma_shared_are_several(all, (n - 1) as nat, k);
    }
}

proof fn lemma_sorted_has(s: Seq<Seq<char>>, t: Seq<Seq<char>>, k: int) -> (j: int)
    requires
        s.to_multiset() == t.to_multiset(),
        0 <= k < s.len(),
    ensures
        0 <= j < t.len(),
        t[j] == s[k],
{
    s.to_multiset_ensures();
    t.to_multiset_ensures();
    assert(s.contains(s[k]));
    assert(s.to_multiset().count(s[k]) > 0);
    assert(t.contains(s[k]));
    choose|j: int| 0 <= j < t.len() && t[j] == s[k]
}

/// Two registrations of the same program, but for the case of its path, are reported as alike where
/// neither has words of its own; both stand in the same report.
pub proof fn law_registrations_without_words_are_reported(
    worksets: Seq<Workset>,
    i: int,
    a: int,
    j: int,
    b: int,
)
    requires
        0 <= i < worksets.len(),
        0 <= a < worksets[i].windows@.len(),
        0 <= j < worksets.len(),
        0 <= b < worksets[j].windows@.len(),
        worksets[i].windows@[a].id != worksets[j].windows@[b].id,
        worksets[i].windows@[a].matcher.title_contains is None,
        worksets[i].windows@[a].matcher.title_regex is None,
        worksets[j].windows@[b].matcher.title_contains is None,
        worksets[j].windows@[b].matcher.title_regex is None,
        text::ascii_lower(worksets[i].windows@[a].matcher.executable_path@) == text::ascii_lower(
            worksets[j].windows@[b].matcher.executable_path@,
        ),
    ensures
        exists|g: int|
            0 <= g < alike(worksets).len() && ((#[trigger] alike(worksets)[g]) matches
                AnomalyView::Indistinguishable { executable, entries, worksets: _ } && {
                &&& executable == text::ascii_lower(
                    worksets[i].windows@[a].matcher.executable_path@,
                )
                &&& entries.contains(worksets[i].windows@[a].id)
                &&& entries.contains(worksets[j].windows@[b].id)
            }),
{
    let all = blanks(worksets);
    let p = text::ascii_lower(worksets[i].windows@[a].matcher.executable_path@);
    let x = lemma_blank_at(worksets, i, a);
    let y = lemma_blank_at(worksets, j, b);
    let group = of_program(all, p);
    let k = lemma_of_program_has(all, p, x);
    let l = lemma_of_program_has(all, p, y);
    assert(k != l);
    let m = lemma_shared_has(all, all.len(), x);
    let several = shared_programs(all, all.len());
    order::lemma_sorted_of(several);
    let g = lemma_sorted_has(several, order::sorted_of(several), m);
    assert(alike(worksets)[g] == group_view(all, p));
    let ids = group.map_values(|b: Blank| b.id);
    assert(ids[k] == worksets[i].windows@[a].id);
    assert(ids[l] == worksets[j].windows@[b].id);
}

/// Each report names at least two registrations, and each of them is one of that program without
/// words of its own.
pub proof fn law_only_registrations_without_words_are_alike(worksets: Seq<Workset>, g: int, k: int)
    requires
        0 <= g < alike(worksets).len(),
        0 <= k,
    ensures
        alike(worksets)[g] matches AnomalyView::Indistinguishable {
            executable,
            entries,
            worksets: _,
        } && {
            &&& entries.len() >= 2
            &&& k < entries.len() ==> exists|i: int, a: int|
                0 <= i < worksets.len() && 0 <= a < worksets[i].windows@.len() && (
                #[trigger] worksets[i].windows@[a]).id == entries[k]
                    && worksets[i].windows@[a].matcher.title_contains is None
                    && worksets[i].windows@[a].matcher.title_regex is None && text::ascii_lower(
                    worksets[i].windows@[a].matcher.executable_path@,
                ) == executable
        },
{
    let all = blanks(worksets);
    let several = shared_programs(all, all.len());
    let sorted = order::sorted_of(several);
    order::lemma_sorted_of(several);
    let m = lemma_sorted_has(sorted, several, g);
    lemma_shared_are_several(all, all.len(), m);
    let p = sorted[g];
    let group = of_program(all, p);
    if k < group.len() {
        let x = lemma_of_program_from(all, p, k);
        let (i, a) = lemma_blank_from(worksets, x);
        let ids = group.map_values(|b: Blank| b.id);
        assert(ids[k] == worksets[i].windows@[a].id);
    }
}

} // verus!
