//! Events of coding agents: which set each belongs to, and what it makes of the runs.

use vstd::prelude::*;
use std::collections::HashMap;

use crate::application::workset_service;
use crate::application::workset_service::DiskFacts;
use crate::domain::agent::{AgentRun, AgentState, StateRanks};
use crate::domain::workset::{RepositoryKind, Workset};
use crate::ids::Uuid;
use crate::order;
use crate::text;
use crate::winpath;

verus! {

broadcast use vstd::std_specs::hash::group_hash_axioms;

/// What an agent reports.
#[derive(Clone, Copy, Debug, PartialEq, Eq, Structural)]
pub enum NormalizedEventKind {
    RunStarted,
    NeedsInput,
    ToolUseObserved,
    RunCompleted,
}

/// One report of an agent.
#[derive(Clone, Debug)]
pub struct NormalizedEvent {
    pub schema_version: u32,
    pub source: String,
    pub event: NormalizedEventKind,
    pub session_id: String,
    pub turn_id: String,
    pub cwd: String,
    pub model: Option<String>,
    pub occurred_at: String,
}

/// An event that belongs to no registered set, with the moment it came, in milliseconds of a
/// clock that never runs backwards.
#[derive(Clone, Debug)]
pub struct UnmatchedAgentEvent {
    pub cwd: String,
    pub event: NormalizedEventKind,
    pub received_at: u64,
}

/// How many milliseconds such an event is kept.
pub const UNMATCHED_RETENTION: u64 = 1_800_000;

// ---------------------------------------------------------------------------
// Which set an event belongs to
// ---------------------------------------------------------------------------

/// The directory that belongs to a set.
pub open spec fn home_of(disk: DiskFacts, w: Workset) -> Seq<char> {
    workset_service::match_path(disk, w.repository_path@, w.repository_kind)
}

/// The set has a directory that an event can come from: its path is not empty, and where it is a
/// workspace, its file tells a folder.
pub open spec fn has_home(disk: DiskFacts, w: Workset) -> bool {
    &&& w.repository_path@.len() > 0
    &&& home_of(disk, w).len() > 0
    &&& w.repository_kind == RepositoryKind::Workspace ==> workset_service::workspace_home(
        disk,
        w.repository_path@,
    ) is Some
}

pub open spec fn root_test(
    disk: DiskFacts,
    worksets: Seq<Workset>,
    root: Seq<char>,
) -> spec_fn(int) -> bool {
    |i: int|
        has_home(disk, worksets[i]) && winpath::same_path(home_of(disk, worksets[i]), root)
}

pub open spec fn below_test(
    disk: DiskFacts,
    worksets: Seq<Workset>,
    cwd: Seq<char>,
) -> spec_fn(int) -> bool {
    |i: int|
        has_home(disk, worksets[i]) && winpath::lies_under(cwd, home_of(disk, worksets[i]))
}

/// The first set whose directory is the root of the repository around `cwd`, or else the first
/// whose directory is `cwd` or lies above it. A set without a directory is none of these.
pub open spec fn owner_of(disk: DiskFacts, worksets: Seq<Workset>, cwd: Seq<char>) -> Option<Uuid> {
    let by_root = match workset_service::git_root_of(disk.git_roots@, cwd) {
        Some(root) => order::first_where(worksets.len(), root_test(disk, worksets, root)),
        None => None,
    };
    let found = match by_root {
        Some(i) => Some(i),
        None => order::first_where(worksets.len(), below_test(disk, worksets, cwd)),
    };
    match found {
        Some(i) => Some(worksets[i].id),
        None => None,
    }
}

/// The directory of a set, where it has one.
fn find_home(disk: &DiskFacts, w: &Workset) -> (r: Option<String>)
    ensures
        match r {
            Some(home) => has_home(*disk, *w) && home@ == home_of(*disk, *w),
            None => !has_home(*disk, *w),
        },
{
    if w.repository_kind == RepositoryKind::Workspace && workset_service::find_workspace_home(
        disk,
        w.repository_path.as_str(),
    ).is_none() {
        return None;
    }
    let home = workset_service::resolve_match_path(
        disk,
        w.repository_path.as_str(),
        w.repository_kind,
    );
    if text::is_empty_text(w.repository_path.as_str()) || text::is_empty_text(home.as_str()) {
        None
    } else {
        Some(home)
    }
}

fn find_by_root(disk: &DiskFacts, worksets: &[Workset], root: &str) -> (r: Option<usize>)
    ensures
        match r {
            Some(i) => i < worksets@.len() && order::first_where(
                worksets@.len(),
                root_test(*disk, worksets@, root@),
            ) == Some(i as int),
            None => order::first_where(worksets@.len(), root_test(*disk, worksets@, root@)) is None,
        },
{
    let ghost test = root_test(*disk, worksets@, root@);
    let mut i: usize = 0;
    while i < worksets.len()
        invariant
            i <= worksets@.len(),
            test == root_test(*disk, worksets@, root@),
            forall|k: int| 0 <= k < i ==> !#[trigger] test(k),
        decreases worksets@.len() - i,
    {
        if let Some(home) = find_home(disk, &worksets[i]) {
            if winpath::equal_paths(home.as_str(), root) {
                proof {
                    assert(test(i as int));
                    order::lemma_first_where_some(worksets@.len(), test, i as int);
                }
                return Some(i);
            }
        }
        assert(!test(i as int));
        i += 1;
    }
    proof {
        order::lemma_first_where_none(worksets@.len(), test);
    }
    None
}

fn find_above(disk: &DiskFacts, worksets: &[Workset], cwd: &str) -> (r: Option<usize>)
    ensures
        match r {
            Some(i) => i < worksets@.len() && order::first_where(
                worksets@.len(),
                below_test(*disk, worksets@, cwd@),
            ) == Some(i as int),
            None => order::first_where(worksets@.len(), below_test(*disk, worksets@, cwd@)) is None,
        },
{
    let ghost test = below_test(*disk, worksets@, cwd@);
    let mut i: usize = 0;
    while i < worksets.len()
        invariant
            i <= worksets@.len(),
            test == below_test(*disk, worksets@, cwd@),
            forall|k: int| 0 <= k < i ==> !#[trigger] test(k),
        decreases worksets@.len() - i,
    {
        if let Some(home) = find_home(disk, &worksets[i]) {
            if winpath::starts_with(cwd, home.as_str()) {
                proof {
                    assert(test(i as int));
                    order::lemma_first_where_some(worksets@.len(), test, i as int);
                }
                return Some(i);
            }
        }
        assert(!test(i as int));
        i += 1;
    }
    proof {
        order::lemma_first_where_none(worksets@.len(), test);
    }
    None
}

/// The set that an event from the working directory `event_cwd` belongs to.
pub fn map_event_to_workset(disk: &DiskFacts, worksets: &[Workset], event_cwd: &str) -> (r: Option<
    Uuid,
>)
    ensures
        r == owner_of(*disk, worksets@, event_cwd@),
{
    if let Some(root) = workset_service::find_git_root(disk, event_cwd) {
        if let Some(i) = find_by_root(disk, worksets, root.as_str()) {
            return Some(worksets[i].id);
        }
    }
    match find_above(disk, worksets, event_cwd) {
        Some(i) => Some(worksets[i].id),
        None => None,
    }
}

/// A set without a directory never takes an event, wherever the event comes from.
pub proof fn law_no_home_no_event(disk: DiskFacts, worksets: Seq<Workset>, cwd: Seq<char>)
    ensures
        owner_of(disk, worksets, cwd) matches Some(id) ==> exists|i: int|
            0 <= i < worksets.len() && (#[trigger] worksets[i]).id == id && has_home(
                disk,
                worksets[i],
            ),
        (forall|i: int| 0 <= i < worksets.len() ==> !has_home(disk, #[trigger] worksets[i]))
            ==> owner_of(disk, worksets, cwd) is None,
{
    order::lemma_first_where(worksets.len(), below_test(disk, worksets, cwd));
    if let Some(root) = workset_service::git_root_of(disk.git_roots@, cwd) {
        order::lemma_first_where(worksets.len(), root_test(disk, worksets, root));
    }
}

// ---------------------------------------------------------------------------
// What an event makes of the runs
// ---------------------------------------------------------------------------

pub open spec fn turn_test(
    runs: Seq<AgentRun>,
    session: Seq<char>,
    turn: Seq<char>,
) -> spec_fn(int) -> bool {
    |i: int| runs[i].session_id@ == session && runs[i].turn_id@ == turn
}

/// The first run of that turn.
pub open spec fn run_of(runs: Seq<AgentRun>, session: Seq<char>, turn: Seq<char>) -> Option<int> {
    order::first_where(runs.len(), turn_test(runs, session, turn))
}

/// The runs once the turn of the event is in the given state.
pub open spec fn upserted(
    runs: Seq<AgentRun>,
    workset_id: Uuid,
    event: NormalizedEvent,
    state: AgentState,
) -> Seq<AgentRun> {
    match run_of(runs, event.session_id@, event.turn_id@) {
        Some(i) => runs.update(
            i,
            AgentRun {
                state,
                last_transition_at: event.occurred_at,
                model: if event.model is Some {
                    event.model
                } else {
                    runs[i].model
                },
                ..runs[i]
            },
        ),
        None => runs.push(
            AgentRun {
                session_id: event.session_id,
                turn_id: event.turn_id,
                workset_id,
                state,
                model: event.model,
                confirmed: false,
                started_at: event.occurred_at,
                last_transition_at: event.occurred_at,
            },
        ),
    }
}

/// The runs once it is seen that the turn of the event is at work again. Only a wait for input or
/// an end that came too early is taken back. Time is counted anew after a wait for input alone.
pub open spec fn resumed(runs: Seq<AgentRun>, event: NormalizedEvent) -> Seq<AgentRun> {
    match run_of(runs, event.session_id@, event.turn_id@) {
        Some(i) => if runs[i].state == AgentState::NeedsInput {
            runs.update(
                i,
                AgentRun {
                    state: AgentState::Running,
                    confirmed: false,
                    last_transition_at: event.occurred_at,
                    ..runs[i]
                },
            )
        } else if runs[i].state == AgentState::Ready {
            runs.update(
                i,
                AgentRun { state: AgentState::Running, confirmed: false, ..runs[i] },
            )
        } else {
            runs
        },
        None => runs,
    }
}

/// The runs once the turn of the event is over and nobody has looked yet.
pub open spec fn completed(
    runs: Seq<AgentRun>,
    workset_id: Uuid,
    event: NormalizedEvent,
) -> Seq<AgentRun> {
    let now = upserted(runs, workset_id, event, AgentState::Ready);
    match run_of(now, event.session_id@, event.turn_id@) {
        Some(i) => now.update(i, AgentRun { confirmed: false, ..now[i] }),
        None => now,
    }
}

/// The runs after an event that belongs to a set.
pub open spec fn after_event(
    runs: Seq<AgentRun>,
    workset_id: Uuid,
    event: NormalizedEvent,
) -> Seq<AgentRun> {
    match event.event {
        NormalizedEventKind::RunStarted => upserted(runs, workset_id, event, AgentState::Running),
        NormalizedEventKind::NeedsInput => upserted(
            runs,
            workset_id,
            event,
            AgentState::NeedsInput,
        ),
        NormalizedEventKind::ToolUseObserved => resumed(runs, event),
        NormalizedEventKind::RunCompleted => completed(runs, workset_id, event),
    }
}

/// The event came less than the time of retention ago.
pub open spec fn is_fresh(now: u64) -> spec_fn(UnmatchedAgentEvent) -> bool {
    |u: UnmatchedAgentEvent| now - u.received_at < UNMATCHED_RETENTION
}

fn find_run(runs: &Vec<AgentRun>, session_id: &str, turn_id: &str) -> (r: Option<usize>)
    ensures
        match r {
            Some(i) => i < runs@.len() && run_of(runs@, session_id@, turn_id@) == Some(i as int),
            None => run_of(runs@, session_id@, turn_id@) is None,
        },
{
    let ghost test = turn_test(runs@, session_id@, turn_id@);
    let mut i: usize = 0;
    while i < runs.len()
        invariant
            i <= runs@.len(),
            test == turn_test(runs@, session_id@, turn_id@),
            forall|k: int| 0 <= k < i ==> !#[trigger] test(k),
        decreases runs@.len() - i,
    {
        if text::same_text(runs[i].session_id.as_str(), session_id) && text::same_text(
            runs[i].turn_id.as_str(),
            turn_id,
        ) {
            proof {
                order::lemma_first_where_some(runs@.len(), test, i as int);
            }
            return Some(i);
        }
        i += 1;
    }
    proof {
        order::lemma_first_where_none(runs@.len(), test);
    }
    None
}

fn copied(s: &Option<String>) -> (r: Option<String>)
    ensures
        r == *s,
{
    match s {
        Some(t) => Some(t.clone()),
        None => None,
    }
}

fn upsert_run(
    runs: &mut Vec<AgentRun>,
    workset_id: Uuid,
    event: &NormalizedEvent,
    state: AgentState,
)
    ensures
        final(runs)@ == upserted(old(runs)@, workset_id, *event, state),
{
    let ghost before = runs@;
    match find_run(runs, event.session_id.as_str(), event.turn_id.as_str()) {
        Some(i) => {
            runs[i].state = state;
            runs[i].last_transition_at = event.occurred_at.clone();
            if event.model.is_some() {
                runs[i].model = copied(&event.model);
            }
            assert(runs@ =~= upserted(before, workset_id, *event, state));
        },
        None => {
            runs.push(
                AgentRun {
                    session_id: event.session_id.clone(),
                    turn_id: event.turn_id.clone(),
                    workset_id,
                    state,
                    model: copied(&event.model),
                    confirmed: false,
                    started_at: event.occurred_at.clone(),
                    last_transition_at: event.occurred_at.clone(),
                },
            );
        },
    }
}

/// Takes an event that belongs to a set into account.
pub fn update_runs(runs: &mut Vec<AgentRun>, workset_id: Uuid, event: &NormalizedEvent)
    ensures
        final(runs)@ == after_event(old(runs)@, workset_id, *event),
{
    let ghost before = runs@;
    match event.event {
        NormalizedEventKind::RunStarted => {
            upsert_run(runs, workset_id, event, AgentState::Running);
        },
        NormalizedEventKind::NeedsInput => {
            upsert_run(runs, workset_id, event, AgentState::NeedsInput);
        },
        NormalizedEventKind::ToolUseObserved => {
            if let Some(i) = find_run(runs, event.session_id.as_str(), event.turn_id.as_str()) {
                let state = runs[i].state;
                if state == AgentState::NeedsInput || state == AgentState::Ready {
                    if state == AgentState::NeedsInput {
                        runs[i].last_transition_at = event.occurred_at.clone();
                    }
                    runs[i].state = AgentState::Running;
                    runs[i].confirmed = false;
                }
            }
            assert(runs@ =~= resumed(before, *event));
        },
        NormalizedEventKind::RunCompleted => {
            upsert_run(runs, workset_id, event, AgentState::Ready);
            let ghost middle = runs@;
            if let Some(i) = find_run(runs, event.session_id.as_str(), event.turn_id.as_str()) {
                runs[i].confirmed = false;
                assert(runs@ =~= middle.update(
                    i as int,
                    AgentRun { confirmed: false, ..middle[i as int] },
                ));
            }
        },
    }
}

fn prune_expired_unmatched(unmatched: &mut Vec<UnmatchedAgentEvent>, now: u64)
    ensures
        final(unmatched)@ == old(unmatched)@.filter(is_fresh(now)),
{
    let ghost before = unmatched@;
    let ghost fresh = is_fresh(now);
    let mut i: usize = 0;
    proof {
        reveal(Seq::filter);
        assert(before.take(0).filter(fresh) =~= Seq::<UnmatchedAgentEvent>::empty());
        assert(unmatched@ =~= before.take(0).filter(fresh) + before.skip(0));
    }
    let ghost mut done: int = 0;
    while i < unmatched.len()
        invariant
            before == old(unmatched)@,
            fresh == is_fresh(now),
            0 <= done <= before.len(),
            i == before.take(done).filter(fresh).len(),
            unmatched@ == before.take(done).filter(fresh) + before.skip(done),
            unmatched@.len() == i + before.len() - done,
        decreases unmatched@.len() - i,
    {
        let ghost kept = before.take(done).filter(fresh);
        let ghost was = unmatched@;
        proof {
            reveal(Seq::filter);
            assert(before.take(done + 1).drop_last() =~= before.take(done));
            assert(before.take(done + 1).last() == before[done]);
            assert(was[i as int] == before[done]);
        }
        let age_is_over = now >= unmatched[i].received_at && now - unmatched[i].received_at
            >= UNMATCHED_RETENTION;
        if age_is_over {
            unmatched.remove(i);
            assert(!fresh(before[done]));
            assert(unmatched@ =~= kept + before.skip(done + 1));
        } else {
            assert(fresh(before[done]));
            i += 1;
            assert(unmatched@ =~= kept.push(before[done]) + before.skip(done + 1));
        }
        proof {
            done = done + 1;
        }
    }
    proof {
        assert(before.take(done) =~= before);
        assert(unmatched@ =~= before.filter(fresh));
    }
}

/// Takes an event into account at the moment `now`. It changes the runs of the set that it belongs
/// to, whose id is returned; an event that belongs to none is put aside, and such events are
/// forgotten in time.
pub fn apply_event(
    disk: &DiskFacts,
    worksets: &[Workset],
    unmatched: &mut Vec<UnmatchedAgentEvent>,
    runs: &mut Vec<AgentRun>,
    event: &NormalizedEvent,
    now: u64,
) -> (r: Option<Uuid>)
    ensures
        r == owner_of(*disk, worksets@, event.cwd@),
        match r {
            Some(id) => {
                &&& final(runs)@ == after_event(old(runs)@, id, *event)
                &&& final(unmatched)@ == old(unmatched)@.filter(is_fresh(now))
            },
            None => {
                &&& final(runs)@ == old(runs)@
                &&& final(unmatched)@ == old(unmatched)@.filter(is_fresh(now)).push(
                    UnmatchedAgentEvent { cwd: event.cwd, event: event.event, received_at: now },
                )
            },
        },
{
    prune_expired_unmatched(unmatched, now);
    match map_event_to_workset(disk, worksets, event.cwd.as_str()) {
        Some(id) => {
            update_runs(runs, id, event);
            Some(id)
        },
        None => {
            unmatched.push(
                UnmatchedAgentEvent {
                    cwd: event.cwd.clone(),
                    event: event.event,
                    received_at: now,
                },
            );
            None
        },
    }
}

/// No turn has two runs.
pub open spec fn one_run_per_turn(runs: Seq<AgentRun>) -> bool {
    forall|i: int, j: int|
        0 <= i < j < runs.len() ==> (#[trigger] runs[i]).session_id@ != (
        #[trigger] runs[j]).session_id@ || runs[i].turn_id@ != runs[j].turn_id@
}

/// The run of a turn is found where another run is changed or added, as long as the turns stay.
proof fn lemma_run_of_kept(
    runs: Seq<AgentRun>,
    now: Seq<AgentRun>,
    session: Seq<char>,
    turn: Seq<char>,
)
    requires
        now.len() == runs.len(),
        forall|i: int|
            0 <= i < runs.len() ==> (#[trigger] now[i]).session_id@ == runs[i].session_id@
                && now[i].turn_id@ == runs[i].turn_id@,
    ensures
        run_of(now, session, turn) == run_of(runs, session, turn),
{
    let p = turn_test(runs, session, turn);
    let q = turn_test(now, session, turn);
    order::lemma_first_where(runs.len(), p);
    match run_of(runs, session, turn) {
        Some(i) => {
            assert forall|j: int| 0 <= j < i implies !#[trigger] q(j) by {
                assert(!p(j));
            }
            order::lemma_first_where_some(now.len(), q, i);
        },
        None => {
            assert forall|j: int| 0 <= j < now.len() implies !#[trigger] q(j) by {
                assert(!p(j));
            }
            order::lemma_first_where_none(now.len(), q);
        },
    }
}

/// The turn of the event has a run once a run was put in for it.
proof fn lemma_upserted_is_found(
    runs: Seq<AgentRun>,
    workset_id: Uuid,
    event: NormalizedEvent,
    state: AgentState,
)
    ensures
        ({
            let now = upserted(runs, workset_id, event, state);
            run_of(now, event.session_id@, event.turn_id@) == match run_of(
                runs,
                event.session_id@,
                event.turn_id@,
            ) {
                Some(i) => Some(i),
                None => Some(runs.len() as int),
            }
        }),
        run_of(runs, event.session_id@, event.turn_id@) matches Some(i) ==> 0 <= i < runs.len()
            && runs[i].session_id@ == event.session_id@ && runs[i].turn_id@ == event.turn_id@,
{
    let now = upserted(runs, workset_id, event, state);
    let test = turn_test(runs, event.session_id@, event.turn_id@);
    order::lemma_first_where(runs.len(), test);
    match run_of(runs, event.session_id@, event.turn_id@) {
        Some(i) => {
            assert(test(i));
            lemma_run_of_kept(runs, now, event.session_id@, event.turn_id@);
        },
        None => {
            let q = turn_test(now, event.session_id@, event.turn_id@);
            assert forall|j: int| 0 <= j < runs.len() implies !#[trigger] q(j) by {
                assert(!test(j));
            }
            order::lemma_first_where_some(now.len(), q, runs.len() as int);
        },
    }
}

/// An event that comes twice changes no more than it did the first time.
pub proof fn law_repeated_event_changes_nothing(
    runs: Seq<AgentRun>,
    workset_id: Uuid,
    event: NormalizedEvent,
)
    ensures
        after_event(after_event(runs, workset_id, event), workset_id, event) == after_event(
            runs,
            workset_id,
            event,
        ),
{
    let s = event.session_id@;
    let t = event.turn_id@;
    match event.event {
        NormalizedEventKind::ToolUseObserved => {
            let test = turn_test(runs, s, t);
            order::lemma_first_where(runs.len(), test);
            let now = resumed(runs, event);
            if let Some(i) = run_of(runs, s, t) {
                assert(test(i));
                lemma_run_of_kept(runs, now, s, t);
            }
            assert(resumed(now, event) =~= now);
        },
        NormalizedEventKind::RunCompleted => {
            let first = upserted(runs, workset_id, event, AgentState::Ready);
            lemma_upserted_is_found(runs, workset_id, event, AgentState::Ready);
            let now = completed(runs, workset_id, event);
            lemma_run_of_kept(first, now, s, t);
            let i = run_of(now, s, t)->0;
            let second = upserted(now, workset_id, event, AgentState::Ready);
            lemma_upserted_is_found(now, workset_id, event, AgentState::Ready);
            assert(second =~= now);
            assert(completed(now, workset_id, event) =~= now);
        },
        NormalizedEventKind::RunStarted => {
            let now = upserted(runs, workset_id, event, AgentState::Running);
            lemma_upserted_is_found(runs, workset_id, event, AgentState::Running);
            assert(upserted(now, workset_id, event, AgentState::Running) =~= now);
        },
        NormalizedEventKind::NeedsInput => {
            let now = upserted(runs, workset_id, event, AgentState::NeedsInput);
            lemma_upserted_is_found(runs, workset_id, event, AgentState::NeedsInput);
            assert(upserted(now, workset_id, event, AgentState::NeedsInput) =~= now);
        },
    }
}

proof fn lemma_one_run_upserted(
    runs: Seq<AgentRun>,
    workset_id: Uuid,
    event: NormalizedEvent,
    state: AgentState,
)
    requires
        one_run_per_turn(runs),
    ensures
        one_run_per_turn(upserted(runs, workset_id, event, state)),
{
    let now = upserted(runs, workset_id, event, state);
    let test = turn_test(runs, event.session_id@, event.turn_id@);
    order::lemma_first_where(runs.len(), test);
    assert forall|i: int, j: int| 0 <= i < j < now.len() implies (#[trigger] now[i]).session_id@ != (
    #[trigger] now[j]).session_id@ || now[i].turn_id@ != now[j].turn_id@ by {
        assert(runs[i].session_id@ == now[i].session_id@ && runs[i].turn_id@ == now[i].turn_id@);
        if j < runs.len() {
            assert(runs[j].session_id@ == now[j].session_id@ && runs[j].turn_id@
                == now[j].turn_id@);
        } else {
            assert(!test(i));
        }
    }
}

/// Where no turn has two runs, none has after any event.
pub proof fn law_one_run_per_turn(runs: Seq<AgentRun>, workset_id: Uuid, event: NormalizedEvent)
    requires
        one_run_per_turn(runs),
    ensures
        one_run_per_turn(after_event(runs, workset_id, event)),
{
    let s = event.session_id@;
    let t = event.turn_id@;
    let now = after_event(runs, workset_id, event);
    match event.event {
        NormalizedEventKind::RunStarted => {
            lemma_one_run_upserted(runs, workset_id, event, AgentState::Running);
        },
        NormalizedEventKind::NeedsInput => {
            lemma_one_run_upserted(runs, workset_id, event, AgentState::NeedsInput);
        },
        NormalizedEventKind::ToolUseObserved => {
            order::lemma_first_where(runs.len(), turn_test(runs, s, t));
            assert forall|i: int, j: int| 0 <= i < j < now.len() implies (
            #[trigger] now[i]).session_id@ != (#[trigger] now[j]).session_id@ || now[i].turn_id@
                != now[j].turn_id@ by {
                assert(runs[i].session_id@ == now[i].session_id@);
                assert(runs[j].session_id@ == now[j].session_id@);
            }
        },
        NormalizedEventKind::RunCompleted => {
            let first = upserted(runs, workset_id, event, AgentState::Ready);
            lemma_one_run_upserted(runs, workset_id, event, AgentState::Ready);
            lemma_upserted_is_found(runs, workset_id, event, AgentState::Ready);
            assert forall|i: int, j: int| 0 <= i < j < now.len() implies (
            #[trigger] now[i]).session_id@ != (#[trigger] now[j]).session_id@ || now[i].turn_id@
                != now[j].turn_id@ by {
                assert(first[i].session_id@ == now[i].session_id@);
                assert(first[j].session_id@ == now[j].session_id@);
            }
        },
    }
}

// ---------------------------------------------------------------------------
// What a set is doing
// ---------------------------------------------------------------------------

/// The run once the user has looked at the set.
pub open spec fn seen(run: AgentRun, workset_id: Uuid) -> AgentRun {
    if run.workset_id == workset_id && run.state == AgentState::Ready {
        AgentRun { confirmed: true, ..run }
    } else {
        run
    }
}

/// Notes that the user has looked at a set, so that its finished runs need no attention any more.
pub fn confirm_ready_and_recompute(runs: &mut Vec<AgentRun>, workset_id: Uuid)
    ensures
        final(runs)@ == old(runs)@.map_values(|run: AgentRun| seen(run, workset_id)),
{
    let ghost before = runs@;
    let ghost all = before.map_values(|run: AgentRun| seen(run, workset_id));
    let n: usize = runs.len();
    let mut i: usize = 0;
    assert(runs@ =~= all.take(0) + before.skip(0));
    while i < n
        invariant
            i <= n == before.len(),
            before == old(runs)@,
            all == before.map_values(|run: AgentRun| seen(run, workset_id)),
            runs@ == all.take(i as int) + before.skip(i as int),
        decreases n - i,
    {
        let ghost was = runs@;
        assert(was[i as int] == before[i as int]);
        if runs[i].workset_id == workset_id && runs[i].state == AgentState::Ready
            && !runs[i].confirmed {
            runs[i].confirmed = true;
        }
        assert(runs@ =~= was.update(i as int, seen(before[i as int], workset_id)));
        assert(runs@ =~= all.take(i + 1) + before.skip(i + 1));
        i += 1;
    }
    assert(runs@ =~= all);
}

/// The state that a run shows: one that is ready and was looked at is idle.
pub open spec fn shown(run: AgentRun) -> AgentState {
    if run.state == AgentState::Ready && run.confirmed {
        AgentState::Idle
    } else {
        run.state
    }
}

/// The highest-ranked state that the runs of a set show, or unknown where it has none.
pub open spec fn aggregate(runs: Seq<AgentRun>, workset_id: Uuid, ranks: StateRanks) -> Option<
    AgentState,
>
    decreases runs.len(),
{
    if runs.len() == 0 {
        None
    } else {
        let before = aggregate(runs.drop_last(), workset_id, ranks);
        let run = runs.last();
        if run.workset_id != workset_id {
            before
        } else {
            match before {
                Some(s) => if ranks.rank(shown(run)) > ranks.rank(s) {
                    Some(shown(run))
                } else {
                    Some(s)
                },
                None => Some(shown(run)),
            }
        }
    }
}

pub open spec fn state_of_set(runs: Seq<AgentRun>, workset_id: Uuid, ranks: StateRanks) -> AgentState {
    match aggregate(runs, workset_id, ranks) {
        Some(s) => s,
        None => AgentState::Unknown,
    }
}

/// The state that one set shows.
pub fn aggregate_state(runs: &[AgentRun], workset_id: Uuid, ranks: &StateRanks) -> (r: AgentState)
    ensures
        r == state_of_set(runs@, workset_id, *ranks),
{
    let mut best: Option<AgentState> = None;
    let mut i: usize = 0;
    while i < runs.len()
        invariant
            i <= runs@.len(),
            best == aggregate(runs@.take(i as int), workset_id, *ranks),
        decreases runs@.len() - i,
    {
        proof {
            assert(runs@.take(i + 1).drop_last() =~= runs@.take(i as int));
            assert(runs@.take(i + 1).last() == runs@[i as int]);
        }
        if runs[i].workset_id == workset_id {
            let state = if runs[i].state == AgentState::Ready && runs[i].confirmed {
                AgentState::Idle
            } else {
                runs[i].state
            };
            best = match best {
                Some(s) => if ranks.rank_of(state) > ranks.rank_of(s) {
                    Some(state)
                } else {
                    Some(s)
                },
                None => Some(state),
            };
        }
        i += 1;
    }
    assert(runs@.take(runs@.len() as int) =~= runs@);
    match best {
        Some(s) => s,
        None => AgentState::Unknown,
    }
}

/// The states that all sets show.
pub fn aggregate_all(worksets: &[Workset], runs: &[AgentRun], ranks: &StateRanks) -> (r: HashMap<
    Uuid,
    AgentState,
>)
    ensures
        forall|id: Uuid| #[trigger]
            r@.contains_key(id) <==> exists|i: int|
                0 <= i < worksets@.len() && (#[trigger] worksets@[i]).id == id,
        forall|id: Uuid| #[trigger]
            r@.contains_key(id) ==> r@[id] == state_of_set(runs@, id, *ranks),
{
    let mut out: HashMap<Uuid, AgentState> = HashMap::new();
    let mut i: usize = 0;
    while i < worksets.len()
        invariant
            i <= worksets@.len(),
            forall|id: Uuid| #[trigger]
                out@.contains_key(id) <==> exists|k: int|
                    0 <= k < i && (#[trigger] worksets@[k]).id == id,
            forall|id: Uuid| #[trigger]
                out@.contains_key(id) ==> out@[id] == state_of_set(runs@, id, *ranks),
        decreases worksets@.len() - i,
    {
        let ghost before = out@;
        let id: Uuid = worksets[i].id;
        let state = aggregate_state(runs, id, ranks);
        out.insert(id, state);
        proof {
            assert forall|d: Uuid| #[trigger] out@.contains_key(d) <==> exists|k: int|
                0 <= k < i + 1 && (#[trigger] worksets@[k]).id == d by {
                if d == id {
                    assert(worksets@[i as int].id == d);
                } else if before.contains_key(d) {
                    let k = choose|k: int| 0 <= k < i && (#[trigger] worksets@[k]).id == d;
                    assert(worksets@[k].id == d);
                }
            }
        }
        i += 1;
    }
    out
}

/// Once the user has looked at a set, it shows no run as ready.
pub proof fn law_nothing_ready_once_seen(
    runs: Seq<AgentRun>,
    workset_id: Uuid,
    ranks: StateRanks,
)
    ensures
        aggregate(
            runs.map_values(|run: AgentRun| seen(run, workset_id)),
            workset_id,
            ranks,
        ) != Some(AgentState::Ready),
    decreases runs.len(),
{
    let now = runs.map_values(|run: AgentRun| seen(run, workset_id));
    if runs.len() > 0 {
        law_nothing_ready_once_seen(runs.drop_last(), workset_id, ranks);
        assert(now.drop_last() =~= runs.drop_last().map_values(
            |run: AgentRun| seen(run, workset_id),
        ));
        assert(now.last() == seen(runs.last(), workset_id));
    }
}

/// A set shows the state of one of its runs, and none of its runs is ranked higher.
pub proof fn law_aggregate_is_highest(runs: Seq<AgentRun>, workset_id: Uuid, ranks: StateRanks)
    ensures
        match aggregate(runs, workset_id, ranks) {
            Some(s) => {
                &&& exists|i: int|
                    0 <= i < runs.len() && (#[trigger] runs[i]).workset_id == workset_id && shown(
                        runs[i],
                    ) == s
                &&& forall|i: int|
                    0 <= i < runs.len() && (#[trigger] runs[i]).workset_id == workset_id
                        ==> ranks.rank(shown(runs[i])) <= ranks.rank(s)
            },
            None => forall|i: int|
                0 <= i < runs.len() ==> (#[trigger] runs[i]).workset_id != workset_id,
        },
    decreases runs.len(),
{
    if runs.len() > 0 {
        let rest = runs.drop_last();
        law_aggregate_is_highest(rest, workset_id, ranks);
        assert forall|i: int| 0 <= i < rest.len() implies #[trigger] runs[i] == rest[i] by {}
        let last = runs[runs.len() - 1];
        match aggregate(rest, workset_id, ranks) {
            Some(s) => {
                let k = choose|k: int|
                    0 <= k < rest.len() && (#[trigger] rest[k]).workset_id == workset_id && shown(
                        rest[k],
                    ) == s;
                assert(runs[k] == rest[k]);
            },
            None => {},
        }
    }
}

/// A run shows the state that it is in; only one that is ready, and that the user has looked at,
/// shows as idle.
pub proof fn law_only_what_was_looked_at_is_hidden(run: AgentRun)
    ensures
        run.state != AgentState::Ready ==> shown(run) == run.state,
        !run.confirmed ==> shown(run) == run.state,
        run.state == AgentState::Ready && run.confirmed ==> shown(run) == AgentState::Idle,
{
}

/// A set shows nothing but what its own runs say: two lists of runs that agree on the runs of a set
/// give it the same state.
pub proof fn law_other_sets_do_not_count(
    a: Seq<AgentRun>,
    b: Seq<AgentRun>,
    workset_id: Uuid,
    ranks: StateRanks,
)
    requires
        a.len() == b.len(),
        forall|i: int|
            0 <= i < a.len() ==> (#[trigger] a[i]).workset_id == b[i].workset_id,
        forall|i: int|
            0 <= i < a.len() && (#[trigger] a[i]).workset_id == workset_id ==> a[i] == b[i],
    ensures
        aggregate(a, workset_id, ranks) == aggregate(b, workset_id, ranks),
        state_of_set(a, workset_id, ranks) == state_of_set(b, workset_id, ranks),
    decreases a.len(),
{
    if a.len() > 0 {
        let (x, y) = (a.drop_last(), b.drop_last());
        assert forall|i: int| 0 <= i < x.len() implies (#[trigger] x[i]).workset_id
            == y[i].workset_id by {
            assert(x[i] == a[i]);
        }
        assert forall|i: int|
            0 <= i < x.len() && (#[trigger] x[i]).workset_id == workset_id implies x[i] == y[i] by {
            assert(x[i] == a[i]);
        }
        law_other_sets_do_not_count(x, y, workset_id, ranks);
        assert(a[a.len() - 1].workset_id == b[a.len() - 1].workset_id);
    }
}

/// Looking at one set changes nothing for the others: their runs stay as they are, and so does the
/// state that each of them shows. Of the set itself, every run that is ready counts as looked at,
/// and nothing else changes.
pub proof fn law_looking_at_one_set_leaves_the_others(
    runs: Seq<AgentRun>,
    workset_id: Uuid,
    other: Uuid,
    ranks: StateRanks,
)
    ensures
        ({
            let now = runs.map_values(|run: AgentRun| seen(run, workset_id));
            &&& now.len() == runs.len()
            &&& forall|i: int|
                0 <= i < runs.len() && runs[i].workset_id != workset_id ==> #[trigger] now[i]
                    == runs[i]
            &&& forall|i: int|
                0 <= i < runs.len() ==> #[trigger] now[i] == (AgentRun {
                    confirmed: now[i].confirmed,
                    ..runs[i]
                })
            &&& forall|i: int|
                0 <= i < runs.len() && runs[i].workset_id == workset_id ==> ((
                #[trigger] now[i]).confirmed <==> runs[i].confirmed || runs[i].state
                    == AgentState::Ready)
            &&& other != workset_id ==> state_of_set(now, other, ranks) == state_of_set(
                runs,
                other,
                ranks,
            )
        }),
{
    let now = runs.map_values(|run: AgentRun| seen(run, workset_id));
    assert forall|i: int| 0 <= i < runs.len() implies #[trigger] now[i] == seen(
        runs[i],
        workset_id,
    ) by {}
    if other != workset_id {
        assert forall|i: int| 0 <= i < runs.len() implies (#[trigger] runs[i]).workset_id
            == now[i].workset_id by {}
        assert forall|i: int|
            0 <= i < runs.len() && (#[trigger] runs[i]).workset_id == other implies runs[i]
            == now[i] by {}
        law_other_sets_do_not_count(runs, now, other, ranks);
    }
}

/// The run is of the turn that the event tells of.
pub open spec fn is_told_of(run: AgentRun, event: NormalizedEvent) -> bool {
    run.session_id@ == event.session_id@ && run.turn_id@ == event.turn_id@
}

/// An event changes the run of its own turn only, and that run stays with the set that it was
/// started for. A turn that starts or asks for input is running or waiting, one that is over is ready
/// and not looked at, and one that uses a tool goes on running where it was taken for waiting or
/// over. Time is counted from the event, except that an end that came too early is taken back as if
/// it had not been. A model that the event names is noted. A turn that has no run yet gets one, in the
/// set that the event belongs to, except that the use of a tool starts nothing.
pub proof fn law_event_changes_its_own_turn_only(
    runs: Seq<AgentRun>,
    workset_id: Uuid,
    event: NormalizedEvent,
)
    requires
        one_run_per_turn(runs),
    ensures
        ({
            let now = after_event(runs, workset_id, event);
            let known = exists|i: int| 0 <= i < runs.len() && is_told_of(#[trigger] runs[i], event);
            &&& now.len() == if known || event.event == NormalizedEventKind::ToolUseObserved {
                runs.len()
            } else {
                runs.len() + 1
            }
            &&& forall|i: int|
                0 <= i < runs.len() && !is_told_of(runs[i], event) ==> #[trigger] now[i] == runs[i]
            &&& forall|i: int|
                0 <= i < runs.len() && is_told_of(runs[i], event) ==> is_told_of(
                    #[trigger] now[i],
                    event,
                ) && now[i].workset_id == runs[i].workset_id && now[i].started_at
                    == runs[i].started_at && match event.event {
                    NormalizedEventKind::RunStarted => now[i].state == AgentState::Running
                        && now[i].last_transition_at == event.occurred_at && now[i].confirmed
                        == runs[i].confirmed,
                    NormalizedEventKind::NeedsInput => now[i].state == AgentState::NeedsInput
                        && now[i].last_transition_at == event.occurred_at && now[i].confirmed
                        == runs[i].confirmed,
                    NormalizedEventKind::RunCompleted => now[i].state == AgentState::Ready
                        && !now[i].confirmed && now[i].last_transition_at == event.occurred_at,
                    NormalizedEventKind::ToolUseObserved => if runs[i].state
                        == AgentState::NeedsInput || runs[i].state == AgentState::Ready {
                        now[i].state == AgentState::Running && !now[i].confirmed
                            && now[i].last_transition_at == if runs[i].state == AgentState::Ready {
                            runs[i].last_transition_at
                        } else {
                            event.occurred_at
                        }
                    } else {
                        now[i] == runs[i]
                    },
                }
            &&& forall|i: int|
                0 <= i < runs.len() && is_told_of(runs[i], event) ==> (#[trigger] now[i]).model
                    == if event.model is Some && event.event
                    != NormalizedEventKind::ToolUseObserved {
                    event.model
                } else {
                    runs[i].model
                }
            &&& now.len() > runs.len() ==> is_told_of(now.last(), event) && now.last().workset_id
                == workset_id && !now.last().confirmed && now.last().model == event.model
                && now.last().started_at
                == event.occurred_at && now.last().last_transition_at == event.occurred_at
                && now.last().state == match event.event {
                NormalizedEventKind::RunStarted => AgentState::Running,
                NormalizedEventKind::NeedsInput => AgentState::NeedsInput,
                _ => AgentState::Ready,
            }
        }),
{
    let (s, t) = (event.session_id@, event.turn_id@);
    let test = turn_test(runs, s, t);
    order::lemma_first_where(runs.len(), test);
    lemma_upserted_is_found(runs, workset_id, event, AgentState::Ready);
    match run_of(runs, s, t) {
        Some(i) => {
            assert(test(i));
            assert(is_told_of(runs[i], event));
            assert forall|j: int| 0 <= j < runs.len() && j != i implies !is_told_of(
                #[trigger] runs[j],
                event,
            ) by {
                if j < i {
                    assert(runs[j].session_id@ != runs[i].session_id@ || runs[j].turn_id@
                        != runs[i].turn_id@);
                } else {
                    assert(runs[i].session_id@ != runs[j].session_id@ || runs[i].turn_id@
                        != runs[j].turn_id@);
                }
            }
        },
        None => {
            assert forall|j: int| 0 <= j < runs.len() implies !is_told_of(
                #[trigger] runs[j],
                event,
            ) by {
                assert(!test(j));
            }
        },
    }
}

/// An event goes to a set whose directory is the root of the repository that the event comes from,
/// or around the place that it comes from; and it goes to some set wherever there is such a one.
pub proof fn law_event_goes_to_a_set_around_it(
    disk: DiskFacts,
    worksets: Seq<Workset>,
    cwd: Seq<char>,
)
    ensures
        ({
            let around = |i: int|
                winpath::lies_under(cwd, home_of(disk, worksets[i])) || (
                workset_service::git_root_of(disk.git_roots@, cwd) matches Some(root)
                    && winpath::same_path(home_of(disk, worksets[i]), root));
            match owner_of(disk, worksets, cwd) {
                Some(id) => exists|i: int|
                    0 <= i < worksets.len() && (#[trigger] worksets[i]).id == id && has_home(
                        disk,
                        worksets[i],
                    ) && around(i),
                None => forall|i: int|
                    0 <= i < worksets.len() && has_home(disk, #[trigger] worksets[i]) ==> !around(
                        i,
                    ),
            }
        }),
        workset_service::git_root_of(disk.git_roots@, cwd) matches Some(root) ==> (forall|k: int|
            0 <= k < worksets.len() && has_home(disk, #[trigger] worksets[k])
                && winpath::same_path(home_of(disk, worksets[k]), root) ==> (owner_of(
                disk,
                worksets,
                cwd,
            ) matches Some(id) && exists|i: int|
                0 <= i <= k && (#[trigger] worksets[i]).id == id && has_home(disk, worksets[i])
                    && winpath::same_path(home_of(disk, worksets[i]), root))),
{
    let below = below_test(disk, worksets, cwd);
    order::lemma_first_where(worksets.len(), below);
    if order::first_where(worksets.len(), below) is None {
        assert forall|i: int| 0 <= i < worksets.len() && has_home(disk, worksets[i]) implies
            !winpath::lies_under(cwd, home_of(disk, #[trigger] worksets[i])) by {
            assert(!below(i));
        }
    } else {
        assert(below(order::first_where(worksets.len(), below)->0));
    }
    if let Some(root) = workset_service::git_root_of(disk.git_roots@, cwd) {
        let test = root_test(disk, worksets, root);
        order::lemma_first_where(worksets.len(), test);
        match order::first_where(worksets.len(), test) {
            Some(i) => {
                assert(test(i));
                assert forall|k: int|
                    0 <= k < worksets.len() && has_home(disk, #[trigger] worksets[k])
                        && winpath::same_path(home_of(disk, worksets[k]), root) implies (owner_of(
                    disk,
                    worksets,
                    cwd,
                ) matches Some(id) && exists|i: int|
                    0 <= i <= k && (#[trigger] worksets[i]).id == id && has_home(disk, worksets[i])
                        && winpath::same_path(home_of(disk, worksets[i]), root)) by {
                    assert(test(k));
                    assert(worksets[i].id == owner_of(disk, worksets, cwd)->0);
                }
            },
            None => {
                assert forall|i: int| 0 <= i < worksets.len() && has_home(disk, worksets[i])
                    implies !winpath::same_path(home_of(disk, #[trigger] worksets[i]), root) by {
                    assert(!test(i));
                }
            },
        }
    }
}

/// An event that belonged to no set is kept for half an hour, and no longer.
pub proof fn law_unmatched_events_are_kept_for_half_an_hour(u: UnmatchedAgentEvent, now: u64)
    ensures
        is_fresh(now)(u) <==> now < u.received_at + 30 * 60 * 1000,
{
}

} // verus!
