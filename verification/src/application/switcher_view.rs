//! The quick switcher: its rows, what it says of agents, and how the selection moves.

use vstd::prelude::*;

use crate::application::agent_status_service;
use crate::application::colors;
use crate::application::colors::Rgb;
use crate::application::git_status_service::GitStatus;
use crate::application::quick_switcher_service;
use crate::clock;
use crate::clock::Moment;
use crate::domain::agent::{AgentRun, AgentState, StateRanks};
use crate::domain::config::{AppConfig, SortMode};
use crate::domain::hotkey::{HotkeyConfig, HotkeyModifier};
use crate::domain::workset::{ParkingPolicy, Workset};
use crate::ids::Uuid;
use crate::order;
use crate::path_order;
use crate::text;
use crate::winpath;

verus! {

// ---------------------------------------------------------------------------
// Agents
// ---------------------------------------------------------------------------

/// Nothing is going on that is worth a word.
pub open spec fn is_quiet(state: AgentState) -> bool {
    state == AgentState::Idle || state == AgentState::Unknown
}

pub open spec fn symbol_text(state: AgentState) -> Seq<char> {
    match state {
        AgentState::Running => "●"@,
        AgentState::NeedsInput => "●"@,
        AgentState::Ready => "✓"@,
        AgentState::Blocked => "×"@,
        _ => "—"@,
    }
}

pub open spec fn word_text(state: AgentState) -> Seq<char> {
    match state {
        AgentState::Running => "実行中"@,
        AgentState::NeedsInput => "入力待ち"@,
        AgentState::Ready => "成功"@,
        AgentState::Blocked => "失敗"@,
        _ => "未実行"@,
    }
}

/// The mark and the word for a state in a row.
pub fn agent_symbol_and_label(state: AgentState) -> (r: (&'static str, &'static str))
    ensures
        r.0@ == symbol_text(state),
        r.1@ == word_text(state),
{
    match state {
        AgentState::Running => ("●", "実行中"),
        AgentState::NeedsInput => ("●", "入力待ち"),
        AgentState::Ready => ("✓", "成功"),
        AgentState::Blocked => ("×", "失敗"),
        AgentState::Idle => ("—", "未実行"),
        AgentState::Unknown => ("—", "未実行"),
    }
}

pub open spec fn status_text(state: AgentState) -> Seq<char> {
    match state {
        AgentState::Running => "実行中"@,
        AgentState::NeedsInput => "入力待ち"@,
        AgentState::Ready => "完了"@,
        AgentState::Blocked => "エラー"@,
        _ => Seq::empty(),
    }
}

/// The word for a state that is worth one, and nothing for the others.
pub fn agent_status_label(state: AgentState) -> (r: &'static str)
    ensures
        r@ == status_text(state),
{
    proof {
        reveal_strlit("");
        assert(""@ =~= Seq::<char>::empty());
    }
    match state {
        AgentState::Running => "実行中",
        AgentState::NeedsInput => "入力待ち",
        AgentState::Ready => "完了",
        AgentState::Blocked => "エラー",
        AgentState::Idle => "",
        AgentState::Unknown => "",
    }
}

/// The run is one of those that put the set into the state.
pub open spec fn drives(run: AgentRun, workset_id: Uuid, state: AgentState) -> bool {
    &&& run.workset_id == workset_id
    &&& run.state == state
    &&& state == AgentState::Ready ==> !run.confirmed
}

/// Of the first `n` runs that put the set into the state, the one whose time of transition is the
/// last as a text; of several with the same text, the last one listed.
pub open spec fn last_by_text(
    runs: Seq<AgentRun>,
    workset_id: Uuid,
    state: AgentState,
    n: nat,
) -> Option<int>
    decreases n,
{
    if n == 0 {
        None
    } else {
        let before = last_by_text(runs, workset_id, state, (n - 1) as nat);
        if drives(runs[n - 1], workset_id, state) {
            match before {
                Some(b) => if order::text_precedes(
                    runs[n - 1].last_transition_at@,
                    runs[b].last_transition_at@,
                ) {
                    Some(b)
                } else {
                    Some(n - 1)
                },
                None => Some(n - 1),
            }
        } else {
            before
        }
    }
}

/// Of the first `n` runs that put the set into the state, the one that came into it last, by the
/// moments that are told of them; of several at the same time, the last one listed.
pub open spec fn last_by_time(
    runs: Seq<AgentRun>,
    told: Seq<Option<int>>,
    workset_id: Uuid,
    state: AgentState,
    n: nat,
) -> Option<int>
    decreases n,
{
    if n == 0 {
        None
    } else {
        let before = last_by_time(runs, told, workset_id, state, (n - 1) as nat);
        if drives(runs[n - 1], workset_id, state) {
            match before {
                Some(b) => if clock::earlier(told[n - 1], told[b]) {
                    Some(b)
                } else {
                    Some(n - 1)
                },
                None => Some(n - 1),
            }
        } else {
            before
        }
    }
}

/// The run that says since when the set has been in the state: the one that came into it last.
/// Where the last one by text tells no moment, it is that one, and the time is not known.
pub open spec fn driving_run(
    runs: Seq<AgentRun>,
    told: Seq<Option<int>>,
    workset_id: Uuid,
    state: AgentState,
) -> Option<int> {
    match last_by_text(runs, workset_id, state, runs.len()) {
        Some(b) => if told[b] is None {
            Some(b)
        } else {
            last_by_time(runs, told, workset_id, state, runs.len())
        },
        None => None,
    }
}

fn puts_into(run: &AgentRun, workset_id: Uuid, state: AgentState) -> (r: bool)
    ensures
        r == drives(*run, workset_id, state),
{
    run.workset_id == workset_id && run.state == state && (state != AgentState::Ready
        || !run.confirmed)
}

fn find_last_by_text(runs: &[AgentRun], workset_id: Uuid, state: AgentState) -> (r: Option<usize>)
    ensures
        match r {
            Some(i) => i < runs@.len() && last_by_text(runs@, workset_id, state, runs@.len())
                == Some(i as int),
            None => last_by_text(runs@, workset_id, state, runs@.len()) is None,
        },
{
    let mut best: Option<usize> = None;
    let mut i: usize = 0;
    while i < runs.len()
        invariant
            i <= runs@.len(),
            match best {
                Some(b) => b < i && last_by_text(runs@, workset_id, state, i as nat) == Some(
                    b as int,
                ),
                None => last_by_text(runs@, workset_id, state, i as nat) is None,
            },
        decreases runs@.len() - i,
    {
        if puts_into(&runs[i], workset_id, state) {
            best = match best {
                Some(b) => if order::Ranked::before(
                    &runs[i].last_transition_at,
                    &runs[b].last_transition_at,
                ) {
                    Some(b)
                } else {
                    Some(i)
                },
                None => Some(i),
            };
        }
        i += 1;
    }
    best
}

fn find_last_by_time(
    runs: &[AgentRun],
    told: &Vec<Option<Moment>>,
    workset_id: Uuid,
    state: AgentState,
) -> (r: Option<usize>)
    requires
        told@.len() == runs@.len(),
    ensures
        ({
            let tv = clock::moments_view(told@);
            match r {
                Some(i) => i < runs@.len() && last_by_time(
                    runs@,
                    tv,
                    workset_id,
                    state,
                    runs@.len(),
                ) == Some(i as int),
                None => last_by_time(runs@, tv, workset_id, state, runs@.len()) is None,
            }
        }),
{
    let ghost tv = clock::moments_view(told@);
    let mut best: Option<usize> = None;
    let mut i: usize = 0;
    while i < runs.len()
        invariant
            i <= runs@.len() == told@.len(),
            tv == clock::moments_view(told@),
            match best {
                Some(b) => b < i && last_by_time(runs@, tv, workset_id, state, i as nat) == Some(
                    b as int,
                ),
                None => last_by_time(runs@, tv, workset_id, state, i as nat) is None,
            },
        decreases runs@.len() - i,
    {
        if puts_into(&runs[i], workset_id, state) {
            best = match best {
                Some(b) => if clock::is_earlier(told[i], told[b]) {
                    Some(b)
                } else {
                    Some(i)
                },
                None => Some(i),
            };
        }
        i += 1;
    }
    best
}

/// Finds the run that says since when the set has been in the state, where `told` holds the moment
/// of each run.
pub fn find_driving_run(
    runs: &[AgentRun],
    told: &Vec<Option<Moment>>,
    workset_id: Uuid,
    state: AgentState,
) -> (r: Option<usize>)
    requires
        told@.len() == runs@.len(),
    ensures
        ({
            let tv = clock::moments_view(told@);
            match r {
                Some(i) => i < runs@.len() && driving_run(runs@, tv, workset_id, state) == Some(
                    i as int,
                ),
                None => driving_run(runs@, tv, workset_id, state) is None,
            }
        }),
{
    match find_last_by_text(runs, workset_id, state) {
        Some(b) => if told[b].is_none() {
            Some(b)
        } else {
            find_last_by_time(runs, told, workset_id, state)
        },
        None => None,
    }
}

proof fn lemma_last_by_text(runs: Seq<AgentRun>, workset_id: Uuid, state: AgentState, n: nat)
    ensures
        match last_by_text(runs, workset_id, state, n) {
            Some(b) => 0 <= b < n && drives(runs[b], workset_id, state) && forall|i: int|
                0 <= i < n && drives(#[trigger] runs[i], workset_id, state)
                    ==> !order::text_precedes(
                    runs[b].last_transition_at@,
                    runs[i].last_transition_at@,
                ),
            None => forall|i: int|
                0 <= i < n ==> !drives(#[trigger] runs[i], workset_id, state),
        },
    decreases n,
{
    if n > 0 {
        let m = (n - 1) as nat;
        lemma_last_by_text(runs, workset_id, state, m);
        if drives(runs[n - 1], workset_id, state) {
            let now = runs[n - 1].last_transition_at@;
            order::lemma_text_irreflexive(now);
            if let Some(b) = last_by_text(runs, workset_id, state, m) {
                let held = runs[b].last_transition_at@;
                if order::text_precedes(now, held) {
                    if order::text_precedes(held, now) {
                        order::lemma_text_transitive(now, held, now);
                    }
                } else {
                    assert forall|i: int|
                        0 <= i < n && drives(#[trigger] runs[i], workset_id, state) implies
                        !order::text_precedes(now, runs[i].last_transition_at@) by {
                        if i < m {
                            let other = runs[i].last_transition_at@;
                            order::lemma_text_total(held, now);
                            if order::text_precedes(now, other) && order::text_precedes(held, now) {
                                order::lemma_text_transitive(held, now, other);
                            }
                        }
                    }
                }
            }
        }
    }
}

proof fn lemma_last_by_time(
    runs: Seq<AgentRun>,
    told: Seq<Option<int>>,
    workset_id: Uuid,
    state: AgentState,
    n: nat,
)
    ensures
        match last_by_time(runs, told, workset_id, state, n) {
            Some(b) => 0 <= b < n && drives(runs[b], workset_id, state) && forall|i: int|
                0 <= i < n && drives(#[trigger] runs[i], workset_id, state) ==> !clock::earlier(
                    told[b],
                    told[i],
                ),
            None => forall|i: int|
                0 <= i < n ==> !drives(#[trigger] runs[i], workset_id, state),
        },
    decreases n,
{
    if n > 0 {
        lemma_last_by_time(runs, told, workset_id, state, (n - 1) as nat);
    }
}

/// Where the run that drives a state tells when it came into it, no other that drives the state
/// came into it later; where it does not, no other has a later text. None drives it only where
/// none put the set into it.
pub proof fn law_driving_run_is_the_latest(
    runs: Seq<AgentRun>,
    told: Seq<Option<int>>,
    workset_id: Uuid,
    state: AgentState,
)
    ensures
        match driving_run(runs, told, workset_id, state) {
            Some(b) => {
                &&& 0 <= b < runs.len()
                &&& drives(runs[b], workset_id, state)
                &&& told[b] is Some ==> forall|i: int|
                    0 <= i < runs.len() && drives(#[trigger] runs[i], workset_id, state)
                        ==> !clock::earlier(told[b], told[i])
                &&& told[b] is None ==> forall|i: int|
                    0 <= i < runs.len() && drives(#[trigger] runs[i], workset_id, state)
                        ==> !order::text_precedes(
                        runs[b].last_transition_at@,
                        runs[i].last_transition_at@,
                    )
            },
            None => forall|i: int|
                0 <= i < runs.len() ==> !drives(#[trigger] runs[i], workset_id, state),
        },
{
    lemma_last_by_text(runs, workset_id, state, runs.len());
    lemma_last_by_time(runs, told, workset_id, state, runs.len());
}

/// The moments at which the runs came into their states, as far as they are told.
pub open spec fn transition_moments(runs: Seq<AgentRun>) -> Seq<Option<int>> {
    Seq::new(runs.len(), |i: int| clock::told_at(runs[i].last_transition_at@))
}

fn read_transitions(runs: &[AgentRun]) -> (r: Vec<Option<Moment>>)
    ensures
        clock::moments_view(r@) == transition_moments(runs@),
{
    let mut out: Vec<Option<Moment>> = Vec::new();
    let mut i: usize = 0;
    while i < runs.len()
        invariant
            i <= runs@.len(),
            out@.len() == i,
            forall|k: int|
                0 <= k < i ==> clock::moment_view(#[trigger] out@[k]) == clock::told_at(
                    runs@[k].last_transition_at@,
                ),
        decreases runs@.len() - i,
    {
        out.push(clock::read_moment(runs[i].last_transition_at.as_str()));
        i += 1;
    }
    assert(clock::moments_view(out@) =~= transition_moments(runs@));
    out
}

/// How long ago, in words.
pub open spec fn elapsed_text(minutes: Option<int>) -> Seq<char> {
    match minutes {
        None => Seq::empty(),
        Some(m) => if m < 1 {
            "1分未満"@
        } else {
            text::signed_decimal(m) + "分"@
        },
    }
}

/// Says how long ago that was; nothing where it is not known.
pub fn minutes_label(minutes: Option<i64>) -> (r: String)
    ensures
        r@ == elapsed_text(
            match minutes {
                Some(m) => Some(m as int),
                None => None,
            },
        ),
{
    match minutes {
        None => {
            let none: Vec<char> = Vec::new();
            text::text_of(&none)
        },
        Some(m) => if m < 1 {
            text::owned("1分未満")
        } else {
            let number = text::signed_decimal_text(m);
            text::joined2(number.as_str(), "分")
        },
    }
}

/// Says how long ago the moment was that a text tells; nothing where it tells none.
pub fn format_elapsed(timestamp: &str, now: Moment) -> (r: String)
    ensures
        r@ == elapsed_text(clock::minutes_since(timestamp@, now)),
{
    minutes_label(clock::elapsed_minutes(timestamp, now))
}

/// Since when a set has been in a state, in words.
pub open spec fn since_text(
    runs: Seq<AgentRun>,
    workset_id: Uuid,
    state: AgentState,
    now: Moment,
) -> Seq<char> {
    if is_quiet(state) {
        Seq::empty()
    } else {
        match driving_run(runs, transition_moments(runs), workset_id, state) {
            Some(i) => elapsed_text(clock::minutes_since(runs[i].last_transition_at@, now)),
            None => Seq::empty(),
        }
    }
}

/// The word for the state of a set, and since when it has been in it.
pub fn agent_row_status(
    runs: &[AgentRun],
    workset_id: Uuid,
    state: AgentState,
    now: Moment,
) -> (r: (&'static str, String))
    ensures
        r.0@ == status_text(state),
        r.1@ == since_text(runs@, workset_id, state, now),
{
    let label = agent_status_label(state);
    if state == AgentState::Idle || state == AgentState::Unknown {
        return (label, minutes_label(None));
    }
    let told = read_transitions(runs);
    assert(clock::moments_view(told@).len() == told@.len());
    match find_driving_run(runs, &told, workset_id, state) {
        Some(i) => (label, format_elapsed(runs[i].last_transition_at.as_str(), now)),
        None => (label, minutes_label(None)),
    }
}

/// Of the first `n` sets that are not quiet, the one in the most urgent state; of several, the last
/// one.
pub open spec fn most_urgent(
    worksets: Seq<Workset>,
    runs: Seq<AgentRun>,
    ranks: StateRanks,
    tray: StateRanks,
    n: nat,
) -> Option<int>
    decreases n,
{
    if n == 0 {
        None
    } else {
        let before = most_urgent(worksets, runs, ranks, tray, (n - 1) as nat);
        let state = agent_status_service::state_of_set(runs, worksets[n - 1].id, ranks);
        if is_quiet(state) {
            before
        } else {
            match before {
                Some(b) => if tray.rank(state) >= tray.rank(
                    agent_status_service::state_of_set(runs, worksets[b].id, ranks),
                ) {
                    Some(n - 1)
                } else {
                    Some(b)
                },
                None => Some(n - 1),
            }
        }
    }
}

/// The set whose agents call for attention most, with its state.
pub fn highest_priority_agent_workset(
    worksets: &[Workset],
    runs: &[AgentRun],
    ranks: &StateRanks,
    tray: &StateRanks,
) -> (r: Option<(Uuid, AgentState)>)
    ensures
        r == match most_urgent(worksets@, runs@, *ranks, *tray, worksets@.len()) {
            Some(i) => Some(
                (
                    worksets@[i].id,
                    agent_status_service::state_of_set(runs@, worksets@[i].id, *ranks),
                ),
            ),
            None => None,
        },
{
    let mut best: Option<(Uuid, AgentState)> = None;
    let mut i: usize = 0;
    while i < worksets.len()
        invariant
            i <= worksets@.len(),
            ({
                let m = most_urgent(worksets@, runs@, *ranks, *tray, i as nat);
                &&& m matches Some(b) ==> 0 <= b < i
                &&& best == match m {
                    Some(b) => Some(
                        (
                            worksets@[b].id,
                            agent_status_service::state_of_set(runs@, worksets@[b].id, *ranks),
                        ),
                    ),
                    None => None,
                }
            }),
        decreases worksets@.len() - i,
    {
        let id: Uuid = worksets[i].id;
        let state = agent_status_service::aggregate_state(runs, id, ranks);
        if state != AgentState::Idle && state != AgentState::Unknown {
            best = match best {
                Some((b, other)) => if tray.rank_of(state) >= tray.rank_of(other) {
                    Some((id, state))
                } else {
                    Some((b, other))
                },
                None => Some((id, state)),
            };
        }
        i += 1;
    }
    best
}

proof fn lemma_most_urgent(
    worksets: Seq<Workset>,
    runs: Seq<AgentRun>,
    ranks: StateRanks,
    tray: StateRanks,
    n: nat,
)
    ensures
        ({
            let m = most_urgent(worksets, runs, ranks, tray, n);
            let state = |i: int|
                agent_status_service::state_of_set(runs, worksets[i].id, ranks);
            &&& m matches Some(b) ==> 0 <= b < n && !is_quiet(state(b))
            &&& forall|i: int|
                0 <= i < n && !is_quiet(
                    agent_status_service::state_of_set(runs, (#[trigger] worksets[i]).id, ranks),
                ) ==> m is Some && tray.rank(state(i)) <= tray.rank(state(m->0))
        }),
    decreases n,
{
    if n > 0 {
        lemma_most_urgent(worksets, runs, ranks, tray, (n - 1) as nat);
    }
}

/// No set calls for attention more than the one that is picked, and one is picked unless all are
/// quiet.
pub proof fn law_the_most_urgent_set_is_picked(
    worksets: Seq<Workset>,
    runs: Seq<AgentRun>,
    ranks: StateRanks,
    tray: StateRanks,
    i: int,
)
    requires
        0 <= i < worksets.len(),
        !is_quiet(agent_status_service::state_of_set(runs, worksets[i].id, ranks)),
    ensures
        ({
            let m = most_urgent(worksets, runs, ranks, tray, worksets.len());
            &&& m is Some
            &&& tray.rank(agent_status_service::state_of_set(runs, worksets[i].id, ranks))
                <= tray.rank(
                agent_status_service::state_of_set(runs, worksets[m->0].id, ranks),
            )
        }),
{
    lemma_most_urgent(worksets, runs, ranks, tray, worksets.len());
}

/// What the tray icon says.
pub open spec fn tooltip_text(name: Option<Seq<char>>, state: AgentState) -> Seq<char> {
    match name {
        Some(n) => "RepoDeck — "@ + n + ": "@ + status_text(state),
        None => "RepoDeck"@,
    }
}

/// Says which set calls for attention, and why; or only the name of the program.
pub fn tray_tooltip(urgent: Option<(&str, AgentState)>) -> (r: String)
    ensures
        r@ == match urgent {
            Some((name, state)) => tooltip_text(Some(name@), state),
            None => "RepoDeck"@,
        },
{
    match urgent {
        Some((name, state)) => {
            let mut out = text::joined3("RepoDeck — ", name, ": ");
            out.append(agent_status_label(state));
            out
        },
        None => text::owned("RepoDeck"),
    }
}

// ---------------------------------------------------------------------------
// Rows
// ---------------------------------------------------------------------------

/// How far up a set goes: the more urgent its state, the smaller the key.
pub open spec fn urgency_keys<'a>(
    listed: Seq<&'a Workset>,
    runs: Seq<AgentRun>,
    ranks: StateRanks,
    rows: StateRanks,
) -> Seq<u64> {
    Seq::new(
        listed.len(),
        |i: int|
            (255 - rows.rank(
                agent_status_service::state_of_set(runs, listed[i].id, ranks),
            )) as u64,
    )
}

/// `shown` are the sets in the order of the rows: by urgency first unless the user orders them, and
/// otherwise as listed.
pub open spec fn in_row_order<'a>(
    shown: Seq<&'a Workset>,
    listed: Seq<&'a Workset>,
    sort_mode: SortMode,
    runs: Seq<AgentRun>,
    ranks: StateRanks,
    rows: StateRanks,
) -> bool {
    if sort_mode == SortMode::Manual {
        shown == listed
    } else {
        exists|o: Seq<usize>| #[trigger]
            order::is_stable_order(o, urgency_keys(listed, runs, ranks, rows)) && shown
                == order::picked(listed, o)
    }
}

/// `shown` are the sets of the rows.
pub open spec fn are_shown<'a>(
    shown: Seq<&'a Workset>,
    worksets: Seq<Workset>,
    sort_mode: SortMode,
    filter: Seq<char>,
    runs: Seq<AgentRun>,
    ranks: StateRanks,
    rows: StateRanks,
) -> bool {
    exists|listed: Seq<&'a Workset>|
        {
            &&& #[trigger] quick_switcher_service::is_listed(listed, worksets, sort_mode, filter)
            &&& in_row_order(shown, listed, sort_mode, runs, ranks, rows)
        }
}

/// Lists the sets in the order of the rows.
pub fn order_rows<'a>(
    worksets: &'a [Workset],
    sort_mode: SortMode,
    filter_text: &str,
    runs: &[AgentRun],
    ranks: &StateRanks,
    rows: &StateRanks,
) -> (r: Vec<&'a Workset>)
    ensures
        are_shown(r@, worksets@, sort_mode, filter_text@, runs@, *ranks, *rows),
{
    let listed = quick_switcher_service::sorted_and_filtered(worksets, sort_mode, filter_text);
    if sort_mode == SortMode::Manual {
        assert(in_row_order(listed@, listed@, sort_mode, runs@, *ranks, *rows));
        return listed;
    }
    let ghost want = urgency_keys(listed@, runs@, *ranks, *rows);
    let mut keys: Vec<u64> = Vec::new();
    let mut i: usize = 0;
    while i < listed.len()
        invariant
            i <= listed@.len(),
            want == urgency_keys(listed@, runs@, *ranks, *rows),
            keys@ == want.take(i as int),
        decreases listed@.len() - i,
    {
        let state = agent_status_service::aggregate_state(runs, listed[i].id, ranks);
        let rank: u8 = rows.rank_of(state);
        keys.push((255 - rank) as u64);
        assert(keys@ =~= want.take(i + 1));
        i += 1;
    }
    assert(keys@ =~= want);
    let o = order::stable_order(&keys);
    let mut shown: Vec<&'a Workset> = Vec::new();
    let mut k: usize = 0;
    while k < o.len()
        invariant
            k <= o@.len(),
            o@.len() == listed@.len(),
            forall|a: int| 0 <= a < o@.len() ==> (#[trigger] o@[a]) < listed@.len(),
            shown@ == order::picked(listed@, o@).take(k as int),
        decreases o@.len() - k,
    {
        let at: usize = o[k];
        shown.push(listed[at]);
        assert(shown@ =~= order::picked(listed@, o@).take(k + 1));
        k += 1;
    }
    proof {
        assert(shown@ =~= order::picked(listed@, o@));
        assert(order::is_stable_order(o@, urgency_keys(listed@, runs@, *ranks, *rows)));
        assert(in_row_order(shown@, listed@, sort_mode, runs@, *ranks, *rows));
    }
    shown
}

/// What is known of a repository on disk; none where it was not looked at yet.
pub open spec fn is_cached_at(cache: Seq<(String, GitStatus)>, path: Seq<char>) -> spec_fn(
    int,
) -> bool {
    |i: int| winpath::same_path(cache[i].0@, path)
}

pub open spec fn cached_status(cache: Seq<(String, GitStatus)>, path: Seq<char>) -> Option<
    GitStatus,
> {
    match order::first_where(cache.len(), is_cached_at(cache, path)) {
        Some(i) => Some(cache[i].1),
        None => None,
    }
}

fn find_cached<'a>(cache: &'a [(String, GitStatus)], path: &str) -> (r: Option<&'a GitStatus>)
    ensures
        match r {
            Some(s) => cached_status(cache@, path@) == Some(*s),
            None => cached_status(cache@, path@) is None,
        },
{
    let ghost test = is_cached_at(cache@, path@);
    let mut i: usize = 0;
    while i < cache.len()
        invariant
            i <= cache@.len(),
            test == is_cached_at(cache@, path@),
            forall|k: int| 0 <= k < i ==> !#[trigger] test(k),
        decreases cache@.len() - i,
    {
        if winpath::equal_paths(cache[i].0.as_str(), path) {
            proof {
                assert(test(i as int));
                order::lemma_first_where_some(cache@.len(), test, i as int);
            }
            return Some(&cache[i].1);
        }
        assert(!test(i as int));
        i += 1;
    }
    proof {
        order::lemma_first_where_none(cache@.len(), test);
    }
    None
}

/// One row of the switcher.
#[derive(Debug)]
pub struct QuickSwitcherRow {
    pub workset_id: Uuid,
    pub name: String,
    pub repository_name: String,
    pub color: Rgb,
    pub is_current: bool,
    pub is_parking_target: bool,
    /// The number key that picks the row; 0 for none.
    pub number_hint: i32,
    pub agent_state: AgentState,
    pub agent_symbol: String,
    pub agent_status_label: String,
    pub agent_elapsed_text: String,
    pub branch_text: String,
    pub changed_text: String,
    /// How many minutes ago the last commit was made, where that is known.
    pub last_commit_minutes: Option<i64>,
}

pub open spec fn repository_name_of(path: Seq<char>) -> Seq<char> {
    match winpath::file_name_of(path) {
        Some(name) => name,
        None => path,
    }
}

pub open spec fn number_for(i: int) -> int {
    if i < 9 {
        i + 1
    } else {
        0
    }
}

pub open spec fn branch_label(git: Option<GitStatus>) -> Seq<char> {
    match git {
        Some(s) => match s.branch {
            Some(b) => b@,
            None => Seq::empty(),
        },
        None => Seq::empty(),
    }
}

pub open spec fn changed_label(git: Option<GitStatus>) -> Seq<char> {
    match git {
        Some(s) => if s.is_git {
            "変更"@ + text::decimal(s.changed_count as nat)
        } else {
            Seq::empty()
        },
        None => Seq::empty(),
    }
}

pub open spec fn commit_minutes(git: Option<GitStatus>, now: Moment) -> Option<int> {
    match git {
        Some(s) => match s.last_commit_at {
            Some(at) => clock::minutes_since(at@, now),
            None => None,
        },
        None => None,
    }
}

/// What the rows are made from besides the sets.
pub struct RowContext<'a> {
    pub current_workset_id: Option<Uuid>,
    pub runs: &'a [AgentRun],
    pub ranks: StateRanks,
    pub git: &'a [(String, GitStatus)],
    pub now: Moment,
}

pub open spec fn is_row<'a>(row: QuickSwitcherRow, w: Workset, c: RowContext<'a>, i: int) -> bool {
    let state = agent_status_service::state_of_set(c.runs@, w.id, c.ranks);
    let git = cached_status(c.git@, w.repository_path@);
    &&& row.workset_id == w.id
    &&& row.name@ == w.name@
    &&& row.repository_name@ == repository_name_of(w.repository_path@)
    &&& row.color == colors::color_of(w.color@)
    &&& row.is_current == (c.current_workset_id == Some(w.id))
    &&& row.is_parking_target == (w.parking_policy is Fixed)
    &&& row.number_hint == number_for(i)
    &&& row.agent_state == state
    &&& row.agent_symbol@ == symbol_text(state)
    &&& row.agent_status_label@ == word_text(state)
    &&& row.agent_elapsed_text@ == since_text(c.runs@, w.id, state, c.now)
    &&& row.branch_text@ == branch_label(git)
    &&& row.changed_text@ == changed_label(git)
    &&& match row.last_commit_minutes {
        Some(m) => commit_minutes(git, c.now) == Some(m as int),
        None => commit_minutes(git, c.now) is None,
    }
}

fn empty_text() -> (r: String)
    ensures
        r@ == Seq::<char>::empty(),
{
    let none: Vec<char> = Vec::new();
    text::text_of(&none)
}

fn make_row(w: &Workset, c: &RowContext, i: usize) -> (r: QuickSwitcherRow)
    ensures
        is_row(r, *w, *c, i as int),
{
    let state = agent_status_service::aggregate_state(c.runs, w.id, &c.ranks);
    let (_, agent_elapsed_text) = agent_row_status(c.runs, w.id, state, c.now);
    let (symbol, word) = agent_symbol_and_label(state);
    let git = find_cached(c.git, w.repository_path.as_str());
    let repository_name = match winpath::file_name(w.repository_path.as_str()) {
        Some(name) => name,
        None => w.repository_path.clone(),
    };
    let is_current = match c.current_workset_id {
        Some(id) => id == w.id,
        None => false,
    };
    let is_parking_target = match w.parking_policy {
        ParkingPolicy::Fixed { slot_id: _ } => true,
        _ => false,
    };
    let number_hint: i32 = if i < 9 {
        i as i32 + 1
    } else {
        0
    };
    let branch_text = match git {
        Some(s) => match &s.branch {
            Some(b) => b.clone(),
            None => empty_text(),
        },
        None => empty_text(),
    };
    let changed_text = match git {
        Some(s) => if s.is_git {
            let number = text::decimal_text(s.changed_count as u64);
            text::joined2("変更", number.as_str())
        } else {
            empty_text()
        },
        None => empty_text(),
    };
    let last_commit_minutes = match git {
        Some(s) => match &s.last_commit_at {
            Some(at) => clock::elapsed_minutes(at.as_str(), c.now),
            None => None,
        },
        None => None,
    };
    QuickSwitcherRow {
        workset_id: w.id,
        name: w.name.clone(),
        repository_name,
        color: colors::hex_to_color(w.color.as_str()),
        is_current,
        is_parking_target,
        number_hint,
        agent_state: state,
        agent_symbol: text::owned(symbol),
        agent_status_label: text::owned(word),
        agent_elapsed_text,
        branch_text,
        changed_text,
        last_commit_minutes,
    }
}

/// `rows` show the sets that the filter lets through, in their order.
pub open spec fn are_rows<'a>(
    rows: Seq<QuickSwitcherRow>,
    config: AppConfig,
    filter: Seq<char>,
    c: RowContext<'a>,
    row_ranks: StateRanks,
) -> bool {
    exists|shown: Seq<&Workset>|
        {
            &&& #[trigger] are_shown(
                shown,
                config.worksets@,
                config.settings.sort_mode,
                filter,
                c.runs@,
                c.ranks,
                row_ranks,
            )
            &&& rows.len() == shown.len()
            &&& forall|i: int| 0 <= i < rows.len() ==> is_row(#[trigger] rows[i], *shown[i], c, i)
        }
}

/// Makes the rows of the switcher.
pub fn quick_switcher_rows(
    config: &AppConfig,
    filter_text: &str,
    context: &RowContext,
    row_ranks: &StateRanks,
) -> (r: Vec<QuickSwitcherRow>)
    ensures
        are_rows(r@, *config, filter_text@, *context, *row_ranks),
{
    let shown = order_rows(
        config.worksets.as_slice(),
        config.settings.sort_mode,
        filter_text,
        context.runs,
        &context.ranks,
        row_ranks,
    );
    let mut out: Vec<QuickSwitcherRow> = Vec::new();
    let mut i: usize = 0;
    while i < shown.len()
        invariant
            i <= shown@.len(),
            out@.len() == i,
            forall|k: int| 0 <= k < i ==> is_row(#[trigger] out@[k], *shown@[k], *context, k),
        decreases shown@.len() - i,
    {
        out.push(make_row(shown[i], context, i));
        i += 1;
    }
    out
}

// ---------------------------------------------------------------------------
// The selection
// ---------------------------------------------------------------------------

/// The place after the last row stands for emptying the main screen, so it can be selected too.
pub open spec fn kept_selection(selected: int, rows: int) -> int {
    if selected > rows {
        rows
    } else if selected < 0 {
        0
    } else {
        selected
    }
}

/// Keeps the selection on a row, or on the place after the last, when the rows change.
pub fn clamp_selection(selected: i32, rows: usize) -> (r: i32)
    ensures
        r == kept_selection(
            selected as int,
            if rows > i32::MAX {
                i32::MAX as int
            } else {
                rows as int
            },
        ),
{
    let count: i32 = if rows <= i32::MAX as usize {
        rows as i32
    } else {
        i32::MAX
    };
    if selected > count {
        count
    } else if selected < 0 {
        0
    } else {
        selected
    }
}

pub open spec fn shows(rows: Seq<QuickSwitcherRow>, id: Uuid) -> spec_fn(int) -> bool {
    |i: int| rows[i].workset_id == id
}

/// The row of a set, if it is shown.
pub fn row_of_workset(rows: &[QuickSwitcherRow], workset_id: Uuid) -> (r: Option<usize>)
    ensures
        match r {
            Some(i) => i < rows@.len() && order::first_where(
                rows@.len(),
                shows(rows@, workset_id),
            ) == Some(i as int),
            None => order::first_where(rows@.len(), shows(rows@, workset_id)) is None,
        },
{
    let ghost test = shows(rows@, workset_id);
    let mut i: usize = 0;
    while i < rows.len()
        invariant
            i <= rows@.len(),
            test == shows(rows@, workset_id),
            forall|k: int| 0 <= k < i ==> !#[trigger] test(k),
        decreases rows@.len() - i,
    {
        if rows[i].workset_id == workset_id {
            proof {
                assert(test(i as int));
                order::lemma_first_where_some(rows@.len(), test, i as int);
            }
            return Some(i);
        }
        assert(!test(i as int));
        i += 1;
    }
    proof {
        order::lemma_first_where_none(rows@.len(), test);
    }
    None
}

/// The next or the previous place, round about. There is one place more than rows.
pub open spec fn next_place(selected: int, rows: int, forward: bool) -> int {
    let len = rows + 1;
    let current = (if selected < 0 {
        0
    } else {
        selected
    }) % len;
    if forward {
        (current + 1) % len
    } else {
        (current + len - 1) % len
    }
}

/// Moves the selection by one place, round about. A place that has no number becomes the first.
pub fn cycle_move_selection(selected: i32, rows: usize, forward: bool) -> (r: i32)
    ensures
        ({
            let next = next_place(selected as int, rows as int, forward);
            r == if next <= i32::MAX {
                next
            } else {
                0
            }
        }),
{
    let len: i128 = rows as i128 + 1;
    let start: i128 = if selected < 0 {
        0
    } else {
        selected as i128
    };
    let current: i128 = start % len;
    let next: i128 = if forward {
        (current + 1) % len
    } else {
        (current + len - 1) % len
    };
    if next <= 0x7fff_ffff {
        next as i32
    } else {
        0
    }
}

/// A step forward and a step back leave the selection where it was.
pub proof fn law_a_step_back_undoes_a_step(selected: int, rows: int)
    requires
        0 <= selected <= rows,
    ensures
        next_place(next_place(selected, rows, true), rows, false) == selected,
        next_place(next_place(selected, rows, false), rows, true) == selected,
{
    let len = rows + 1;
    vstd::arithmetic::div_mod::lemma_small_mod(selected as nat, len as nat);
    if selected == rows {
        assert(next_place(selected, rows, true) == 0) by {
            vstd::arithmetic::div_mod::lemma_mod_self_0(len);
        }
        vstd::arithmetic::div_mod::lemma_small_mod(0, len as nat);
        vstd::arithmetic::div_mod::lemma_small_mod((len - 1) as nat, len as nat);
    } else {
        vstd::arithmetic::div_mod::lemma_small_mod((selected + 1) as nat, len as nat);
        vstd::arithmetic::div_mod::lemma_mod_add_multiples_vanish(selected, len);
        assert((selected + 1 + len - 1) % len == selected);
    }
    if selected == 0 {
        vstd::arithmetic::div_mod::lemma_small_mod((len - 1) as nat, len as nat);
        vstd::arithmetic::div_mod::lemma_mod_self_0(len);
        assert(next_place(selected, rows, false) == len - 1);
        assert(next_place(len - 1, rows, true) == 0);
    } else {
        vstd::arithmetic::div_mod::lemma_small_mod((selected - 1) as nat, len as nat);
        vstd::arithmetic::div_mod::lemma_mod_add_multiples_vanish(selected - 1, len);
        assert((selected + len - 1) % len == selected - 1);
        assert(next_place(selected, rows, false) == selected - 1);
    }
}

/// What letting the keys go does.
#[derive(Clone, Copy, Debug, PartialEq, Eq, Structural)]
pub enum CycleCommit {
    EmptyMainScreen,
    Switch(usize),
    Nothing,
}

/// Takes the selection for the user's choice: a row is switched to, and the place after the last
/// row empties the main screen.
pub fn commit_cycle_selection(selected: i32, rows: usize) -> (r: CycleCommit)
    ensures
        r == if selected < 0 {
            CycleCommit::Nothing
        } else if selected >= rows {
            CycleCommit::EmptyMainScreen
        } else {
            CycleCommit::Switch(selected as usize)
        },
{
    if selected < 0 {
        return CycleCommit::Nothing;
    }
    let at: usize = selected as usize;
    if at >= rows {
        CycleCommit::EmptyMainScreen
    } else {
        CycleCommit::Switch(at)
    }
}

/// The virtual-key codes of a modifier. The Windows key has two.
pub open spec fn modifier_codes(m: HotkeyModifier) -> Seq<i32> {
    match m {
        HotkeyModifier::Control => seq![0x11],
        HotkeyModifier::Alt => seq![0x12],
        HotkeyModifier::Shift => seq![0x10],
        HotkeyModifier::Win => seq![0x5B, 0x5C],
    }
}

pub open spec fn all_codes(modifiers: Seq<HotkeyModifier>) -> Seq<i32>
    decreases modifiers.len(),
{
    if modifiers.len() == 0 {
        Seq::empty()
    } else {
        all_codes(modifiers.drop_last()) + modifier_codes(modifiers.last())
    }
}

/// The virtual-key codes to watch while the user cycles.
pub fn hotkey_modifier_vks(hotkey: &HotkeyConfig) -> (r: Vec<i32>)
    ensures
        r@ == all_codes(hotkey.modifiers@),
{
    let mut out: Vec<i32> = Vec::new();
    let mut i: usize = 0;
    while i < hotkey.modifiers.len()
        invariant
            i <= hotkey.modifiers@.len(),
            out@ == all_codes(hotkey.modifiers@.take(i as int)),
        decreases hotkey.modifiers@.len() - i,
    {
        proof {
            assert(hotkey.modifiers@.take(i + 1).drop_last() =~= hotkey.modifiers@.take(i as int));
            assert(hotkey.modifiers@.take(i + 1).last() == hotkey.modifiers@[i as int]);
        }
        let ghost before = out@;
        match hotkey.modifiers[i] {
            HotkeyModifier::Control => out.push(0x11),
            HotkeyModifier::Alt => out.push(0x12),
            HotkeyModifier::Shift => out.push(0x10),
            HotkeyModifier::Win => {
                out.push(0x5B);
                out.push(0x5C);
            },
        }
        assert(out@ =~= before + modifier_codes(hotkey.modifiers@[i as int]));
        i += 1;
    }
    assert(hotkey.modifiers@.take(hotkey.modifiers@.len() as int) =~= hotkey.modifiers@);
    out
}

/// Whether all keys that are watched are up. Where none is watched, none was held.
pub fn cycle_watch_released(down: &[bool]) -> (r: bool)
    ensures
        r == (down@.len() > 0 && forall|i: int| 0 <= i < down@.len() ==> !#[trigger] down@[i]),
{
    let mut i: usize = 0;
    while i < down.len()
        invariant
            i <= down@.len(),
            forall|k: int| 0 <= k < i ==> !#[trigger] down@[k],
        decreases down@.len() - i,
    {
        if down[i] {
            return false;
        }
        i += 1;
    }
    down.len() > 0
}

// ---------------------------------------------------------------------------
// Repositories to look at, and messages
// ---------------------------------------------------------------------------

pub open spec fn has_path(paths: Seq<String>, path: Seq<char>) -> bool {
    exists|i: int| 0 <= i < paths.len() && winpath::same_path((#[trigger] paths[i])@, path)
}

/// The path is the repository of one of the first `n` sets.
pub open spec fn is_repository_of(worksets: Seq<Workset>, n: int, path: String) -> bool {
    exists|i: int| 0 <= i < n && (#[trigger] worksets[i]).repository_path == path
}

fn path_is_listed(paths: &Vec<String>, path: &str) -> (r: bool)
    ensures
        r == has_path(paths@, path@),
{
    let mut i: usize = 0;
    while i < paths.len()
        invariant
            i <= paths@.len(),
            forall|k: int| 0 <= k < i ==> !winpath::same_path((#[trigger] paths@[k])@, path@),
        decreases paths@.len() - i,
    {
        if winpath::equal_paths(paths[i].as_str(), path) {
            return true;
        }
        i += 1;
    }
    false
}

/// The repositories of the first `n` sets, each at its first set only.
pub open spec fn repositories(worksets: Seq<Workset>, n: nat) -> Seq<String>
    decreases n,
{
    if n == 0 {
        Seq::empty()
    } else {
        let before = repositories(worksets, (n - 1) as nat);
        let path = worksets[n - 1].repository_path;
        if has_path(before, path@) {
            before
        } else {
            before.push(path)
        }
    }
}

/// `listed` holds the repositories of the first `n` sets in the order of paths.
pub open spec fn lists_repositories(listed: Seq<String>, worksets: Seq<Workset>, n: nat) -> bool {
    &&& forall|p: String| #[trigger]
        listed.contains(p) <==> repositories(worksets, n).contains(p)
    &&& forall|j: int, k: int|
        0 <= j < k < listed.len() ==> path_order::path_precedes(
            (#[trigger] listed[j])@,
            (#[trigger] listed[k])@,
        )
}

/// Where a path is listed depends only on which paths are.
proof fn lemma_listed_alike(a: Seq<String>, b: Seq<String>, path: Seq<char>)
    requires
        forall|p: String| #[trigger] a.contains(p) <==> b.contains(p),
        has_path(a, path),
    ensures
        has_path(b, path),
{
    let i = choose|i: int| 0 <= i < a.len() && winpath::same_path((#[trigger] a[i])@, path);
    assert(a.contains(a[i]));
    let j = choose|j: int| 0 <= j < b.len() && b[j] == a[i];
    assert(winpath::same_path(b[j]@, path));
}

/// The repositories of all sets in the order of paths, each once, as the first set that has it
/// spells it.
pub fn workset_repo_paths(worksets: &[Workset]) -> (r: Vec<String>)
    ensures
        lists_repositories(r@, worksets@, worksets@.len()),
{
    let mut out: Vec<String> = Vec::new();
    let mut i: usize = 0;
    while i < worksets.len()
        invariant
            i <= worksets@.len(),
            lists_repositories(out@, worksets@, i as nat),
        decreases worksets@.len() - i,
    {
        let path = worksets[i].repository_path.clone();
        let ghost before = out@;
        let ghost repos = repositories(worksets@, i as nat);
        let ghost now = repositories(worksets@, (i + 1) as nat);
        if !path_is_listed(&out, path.as_str()) {
            let mut at: usize = 0;
            while at < out.len() && !path_order::comes_before(path.as_str(), out[at].as_str())
                invariant
                    at <= out@.len(),
                    forall|k: int|
                        0 <= k < at ==> !path_order::path_precedes(
                            path@,
                            (#[trigger] out@[k])@,
                        ),
                decreases out@.len() - at,
            {
                at += 1;
            }
            out.insert(at, path);
            proof {
                if has_path(repos, path@) {
                    lemma_listed_alike(repos, before, path@);
                }
                assert(now == repos.push(path));
                assert forall|p: String| #[trigger] out@.contains(p) <==> now.contains(p) by {
                    lemma_inserted_holds(before, at as int, path, p);
                    lemma_inserted_holds(repos, repos.len() as int, path, p);
                    assert(repos.insert(repos.len() as int, path) =~= repos.push(path));
                    assert(before.contains(p) <==> repos.contains(p));
                }
                assert forall|j: int, k: int|
                    0 <= j < k < out@.len() implies path_order::path_precedes(
                    (#[trigger] out@[j])@,
                    (#[trigger] out@[k])@,
                ) by {
                    lemma_inserted_in_order(before, at as int, path, j, k);
                }
            }
        } else {
            proof {
                lemma_listed_alike(before, repos, path@);
            }
        }
        i += 1;
    }
    out
}

proof fn lemma_inserted_holds(s: Seq<String>, at: int, path: String, p: String)
    requires
        0 <= at <= s.len(),
    ensures
        s.insert(at, path).contains(p) <==> (p == path || s.contains(p)),
{
    let t = s.insert(at, path);
    assert(t[at] == path);
    if s.contains(p) {
        let i = choose|i: int| 0 <= i < s.len() && s[i] == p;
        if i < at {
            assert(t[i] == p);
        } else {
            assert(t[i + 1] == p);
        }
    }
    if t.contains(p) {
        let i = choose|i: int| 0 <= i < t.len() && t[i] == p;
        if i < at {
            assert(s[i] == p);
        } else if i > at {
            assert(s[i - 1] == p);
        }
    }
}

/// A path put before the first that it precedes leaves the list in order.
proof fn lemma_inserted_in_order(s: Seq<String>, at: int, path: String, j: int, k: int)
    requires
        0 <= at <= s.len(),
        0 <= j < k <= s.len(),
        !has_path(s, path@),
        at < s.len() ==> path_order::path_precedes(path@, s[at]@),
        forall|i: int| 0 <= i < at ==> !path_order::path_precedes(path@, (#[trigger] s[i])@),
        forall|a: int, b: int|
            0 <= a < b < s.len() ==> path_order::path_precedes(
                (#[trigger] s[a])@,
                (#[trigger] s[b])@,
            ),
    ensures
        path_order::path_precedes(s.insert(at, path)[j]@, s.insert(at, path)[k]@),
{
    if k < at {
        assert(path_order::path_precedes(s[j]@, s[k]@));
    } else if k == at {
        assert(!winpath::same_path(s[j]@, path@));
        path_order::law_paths_are_ordered(s[j]@, path@, path@);
    } else if j == at {
        if k - 1 > at {
            path_order::law_paths_are_ordered(path@, s[at]@, s[k - 1]@);
        }
    } else if j > at {
        assert(path_order::path_precedes(s[j - 1]@, s[k - 1]@));
    } else {
        assert(path_order::path_precedes(s[j]@, s[k - 1]@));
    }
}

/// Every set's repository is looked at, nothing else is, and none twice.
pub proof fn law_each_repository_is_listed_once(worksets: Seq<Workset>, n: nat)
    requires
        n <= worksets.len(),
    ensures
        forall|i: int|
            0 <= i < n ==> has_path(
                repositories(worksets, n),
                (#[trigger] worksets[i]).repository_path@,
            ),
        forall|j: int|
            0 <= j < repositories(worksets, n).len() ==> is_repository_of(
                worksets,
                n as int,
                #[trigger] repositories(worksets, n)[j],
            ),
        forall|j: int, k: int|
            0 <= j < k < repositories(worksets, n).len() ==> !winpath::same_path(
                (#[trigger] repositories(worksets, n)[j])@,
                (#[trigger] repositories(worksets, n)[k])@,
            ),
    decreases n,
{
    if n > 0 {
        law_each_repository_is_listed_once(worksets, (n - 1) as nat);
        let before = repositories(worksets, (n - 1) as nat);
        let out = repositories(worksets, n);
        let path = worksets[n - 1].repository_path;
        if !has_path(before, path@) {
            assert(winpath::same_path(out[before.len() as int]@, path@));
        }
        assert forall|i: int| 0 <= i < n implies has_path(
            out,
            (#[trigger] worksets[i]).repository_path@,
        ) by {
            if i < n - 1 {
                let j = choose|j: int|
                    0 <= j < before.len() && winpath::same_path(
                        (#[trigger] before[j])@,
                        worksets[i].repository_path@,
                    );
                assert(winpath::same_path(out[j]@, worksets[i].repository_path@));
            }
        }
        assert forall|j: int| 0 <= j < out.len() implies is_repository_of(
            worksets,
            n as int,
            #[trigger] out[j],
        ) by {
            if j < before.len() {
                assert(out[j] == before[j]);
                assert(is_repository_of(worksets, n - 1, before[j]));
            } else {
                assert(worksets[n - 1].repository_path == out[j]);
            }
        }
        assert forall|j: int, k: int| 0 <= j < k < out.len() implies !winpath::same_path(
            (#[trigger] out[j])@,
            (#[trigger] out[k])@,
        ) by {
            assert(out[j] == before[j]);
            if k < before.len() {
                assert(out[k] == before[k]);
            }
        }
    }
}

/// Says that a switch failed.
pub fn switch_failed_message(reason: &str) -> (r: String)
    ensures
        r@ == "切替に失敗しました: "@ + reason@,
{
    text::joined2("切替に失敗しました: ", reason)
}

/// Says how many windows were brought back.
pub fn recovered_message(count: usize) -> (r: String)
    ensures
        r@ == text::decimal(count as nat) + "件のウィンドウをメイン画面へ回収しました。"@,
{
    let number = text::decimal_text(count as u64);
    text::joined2(number.as_str(), "件のウィンドウをメイン画面へ回収しました。")
}

/// Rows show what is listed, all of it. Unless the user orders the sets, no set comes before one
/// whose agents call for more attention.
pub proof fn law_urgent_sets_come_first<'a>(
    shown: Seq<&'a Workset>,
    listed: Seq<&'a Workset>,
    sort_mode: SortMode,
    runs: Seq<AgentRun>,
    ranks: StateRanks,
    rows: StateRanks,
)
    requires
        in_row_order(shown, listed, sort_mode, runs, ranks, rows),
    ensures
        shown.len() == listed.len(),
        forall|k: int| 0 <= k < listed.len() ==> shown.contains(#[trigger] listed[k]),
        forall|k: int| 0 <= k < shown.len() ==> listed.contains(#[trigger] shown[k]),
        sort_mode == SortMode::Manual ==> shown == listed,
        sort_mode != SortMode::Manual ==> forall|a: int, b: int|
            0 <= a < b < shown.len() ==> rows.rank(
                agent_status_service::state_of_set(runs, (#[trigger] shown[b]).id, ranks),
            ) <= rows.rank(
                agent_status_service::state_of_set(runs, (#[trigger] shown[a]).id, ranks),
            ),
{
    if sort_mode == SortMode::Manual {
        assert forall|k: int| 0 <= k < listed.len() implies shown.contains(
            #[trigger] listed[k],
        ) by {
            assert(shown[k] == listed[k]);
        }
        assert forall|k: int| 0 <= k < shown.len() implies listed.contains(
            #[trigger] shown[k],
        ) by {
            assert(listed[k] == shown[k]);
        }
    } else {
        let keys = urgency_keys(listed, runs, ranks, rows);
        let o = choose|o: Seq<usize>| #[trigger]
            order::is_stable_order(o, keys) && shown == order::picked(listed, o);
        order::lemma_stable_order_distinct(o, keys);
        order::lemma_order_is_complete(o, listed.len());
        assert forall|k: int| 0 <= k < listed.len() implies shown.contains(
            #[trigger] listed[k],
        ) by {
            assert(o.contains(k as usize));
            let j = choose|j: int| 0 <= j < o.len() && o[j] == k as usize;
            assert(shown[j] == listed[k]);
        }
        assert forall|k: int| 0 <= k < shown.len() implies listed.contains(
            #[trigger] shown[k],
        ) by {
            assert(listed[o[k] as int] == shown[k]);
        }
        assert forall|a: int, b: int| 0 <= a < b < shown.len() implies rows.rank(
            agent_status_service::state_of_set(runs, (#[trigger] shown[b]).id, ranks),
        ) <= rows.rank(
            agent_status_service::state_of_set(runs, (#[trigger] shown[a]).id, ranks),
        ) by {
            assert(order::stable_before(keys, o[a] as int, o[b] as int));
            assert(shown[a] == listed[o[a] as int] && shown[b] == listed[o[b] as int]);
        }
    }
}

/// A step forward goes to the next place and a step back to the one before; from the place after the
/// last row a step forward goes to the first row, and from the first row a step back goes there.
pub proof fn law_steps_go_round(selected: int, rows: int)
    requires
        0 <= selected <= rows,
    ensures
        next_place(selected, rows, true) == if selected == rows {
            0
        } else {
            selected + 1
        },
        next_place(selected, rows, false) == if selected == 0 {
            rows
        } else {
            selected - 1
        },
{
    let len = rows + 1;
    vstd::arithmetic::div_mod::lemma_small_mod(selected as nat, len as nat);
    if selected == rows {
        vstd::arithmetic::div_mod::lemma_mod_self_0(len);
    } else {
        vstd::arithmetic::div_mod::lemma_small_mod((selected + 1) as nat, len as nat);
    }
    if selected == 0 {
        vstd::arithmetic::div_mod::lemma_small_mod((len - 1) as nat, len as nat);
    } else {
        vstd::arithmetic::div_mod::lemma_small_mod((selected - 1) as nat, len as nat);
        vstd::arithmetic::div_mod::lemma_mod_add_multiples_vanish(selected - 1, len);
        assert((selected + len - 1) % len == selected - 1);
    }
}

/// A selection that there still is stays, and one that there is not any more goes to the nearest
/// place that there is.
pub proof fn law_selection_stays_where_it_can(selected: int, rows: int)
    requires
        0 <= rows,
    ensures
        0 <= kept_selection(selected, rows) <= rows,
        0 <= selected <= rows ==> kept_selection(selected, rows) == selected,
        selected > rows ==> kept_selection(selected, rows) == rows,
        selected < 0 ==> kept_selection(selected, rows) == 0,
{
}

/// A row is the one of its set: it names the set, tells whether it is the current one, shows the state
/// of its agents, and is picked by its number where it is among the first nine.
pub proof fn law_row_tells_its_set<'a>(
    row: QuickSwitcherRow,
    w: Workset,
    c: RowContext<'a>,
    i: int,
)
    requires
        is_row(row, w, c, i),
        0 <= i,
    ensures
        row.workset_id == w.id,
        row.name@ == w.name@,
        row.is_current <==> c.current_workset_id == Some(w.id),
        row.agent_state == agent_status_service::state_of_set(c.runs@, w.id, c.ranks),
        i < 9 ==> row.number_hint == i + 1,
        i >= 9 ==> row.number_hint == 0,
        row.is_parking_target <==> w.parking_policy is Fixed,
{
}

/// Of sets that call for attention alike, the last one is picked.
pub proof fn law_the_last_of_equally_urgent_sets_is_picked(
    worksets: Seq<Workset>,
    runs: Seq<AgentRun>,
    ranks: StateRanks,
    tray: StateRanks,
    n: nat,
)
    ensures
        most_urgent(worksets, runs, ranks, tray, n) matches Some(b) ==> forall|i: int|
            b < i < n ==> {
                let state = agent_status_service::state_of_set(
                    runs,
                    (#[trigger] worksets[i]).id,
                    ranks,
                );
                ||| state is Idle
                ||| state is Unknown
                ||| tray.rank(state) < tray.rank(
                    agent_status_service::state_of_set(runs, worksets[b].id, ranks),
                )
            },
    decreases n,
{
    if n > 0 {
        law_the_last_of_equally_urgent_sets_is_picked(
            worksets,
            runs,
            ranks,
            tray,
            (n - 1) as nat,
        );
    }
}

/// A state is passed over exactly where there is nothing to tell of it.
pub proof fn law_quiet_states_are_idle_or_unknown(state: AgentState)
    ensures
        is_quiet(state) <==> state is Idle || state is Unknown,
        !is_quiet(state) <==> state is Running || state is NeedsInput || state is Ready
            || state is Blocked,
{
}

} // verus!
