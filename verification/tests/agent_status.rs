//! What agents report, and what a set shows of it.

use repodeck::application::agent_status_service::{
    aggregate_all, apply_event, confirm_ready_and_recompute, map_event_to_workset, NormalizedEvent,
    NormalizedEventKind, UnmatchedAgentEvent,
};
use repodeck::application::workset_service::{build_workset, DiskFacts, WorkspaceFile};
use repodeck::domain::agent::{AgentRun, AgentState, StateRanks};
use repodeck::domain::workset::{RepositoryKind, Workset};
use repodeck::ids::Uuid;

const DIR: &str = r"C:\tmp";

const RANKS: StateRanks = StateRanks {
    running: 2,
    needs_input: 5,
    ready: 3,
    blocked: 4,
    idle: 1,
    unknown: 0,
};

fn below(dir: &str, name: &str) -> String {
    format!(r"{dir}\{name}")
}

fn nothing_on_disk() -> DiskFacts {
    DiskFacts { git_roots: Vec::new(), workspaces: Vec::new() }
}

fn workset_at(repository_path: &str) -> Workset {
    build_workset(
        "test".to_string(),
        "#fff".to_string(),
        repository_path.to_string(),
        RepositoryKind::Directory,
        0,
        Vec::new(),
        "2026-07-20T00:00:00Z".to_string(),
    )
}

/// What is known of agents.
struct Agents {
    runs: Vec<AgentRun>,
    unmatched: Vec<UnmatchedAgentEvent>,
}

impl Agents {
    fn new() -> Self {
        Agents { runs: Vec::new(), unmatched: Vec::new() }
    }

    fn apply(&mut self, worksets: &[Workset], event: NormalizedEvent) -> Option<Uuid> {
        apply_event(
            &nothing_on_disk(),
            worksets,
            &mut self.unmatched,
            &mut self.runs,
            &event,
            0,
        )
    }
}

fn event(kind: NormalizedEventKind, cwd: &str, session_id: &str, turn_id: &str) -> NormalizedEvent {
    event_at(kind, cwd, session_id, turn_id, "2026-07-21T00:00:00Z")
}

fn event_at(
    kind: NormalizedEventKind,
    cwd: &str,
    session_id: &str,
    turn_id: &str,
    occurred_at: &str,
) -> NormalizedEvent {
    NormalizedEvent {
        schema_version: 1,
        source: "codex".to_string(),
        event: kind,
        session_id: session_id.to_string(),
        turn_id: turn_id.to_string(),
        cwd: cwd.to_string(),
        model: None,
        occurred_at: occurred_at.to_string(),
    }
}

#[test]
fn map_event_to_workset_matches_exact_repository_path() {
    let repo = String::from(r"D:\repos\a");
    let worksets = [workset_at(&repo)];
    assert_eq!(map_event_to_workset(&nothing_on_disk(), &worksets, &repo), Some(worksets[0].id));
}

#[test]
fn a_workset_without_a_repository_path_never_matches_an_event() {
    let mut browser_only = workset_at(r"D:\repos\a");
    browser_only.repository_path = String::new();
    browser_only.repository_kind = RepositoryKind::Directory;
    let worksets = [browser_only];

    assert_eq!(
        map_event_to_workset(&nothing_on_disk(), &worksets, r"C:\code\unrelated"),
        None
    );
}

#[test]
fn a_set_without_a_directory_is_no_root_either() {
    let mut browser_only = workset_at(r"D:\repos\a");
    browser_only.repository_path = String::new();
    browser_only.repository_kind = RepositoryKind::Directory;
    let worksets = [browser_only];
    let disk = DiskFacts { git_roots: vec![String::new()], workspaces: Vec::new() };

    assert_eq!(map_event_to_workset(&disk, &worksets, ""), None);
    assert_eq!(map_event_to_workset(&disk, &worksets, "repo"), None);
}

#[test]
fn a_workspace_without_its_file_takes_no_event() {
    let mut gone = workset_at(r"D:\w\a.code-workspace");
    gone.repository_kind = RepositoryKind::Workspace;
    let worksets = [gone];
    for cwd in [r"D:\w\a.code-workspace", r"D:\w\a.code-workspace\sub", r"D:\w"] {
        assert_eq!(map_event_to_workset(&nothing_on_disk(), &worksets, cwd), None);
    }
}

#[test]
fn map_event_to_workset_matches_a_subdirectory() {
    let repo = String::from(r"D:\repos\a");
    let worksets = [workset_at(&repo)];
    let sub = below(&repo, "src");
    assert_eq!(map_event_to_workset(&nothing_on_disk(), &worksets, &sub), Some(worksets[0].id));
}

#[test]
fn map_event_to_workset_returns_none_for_an_unregistered_cwd() {
    let worksets = [workset_at(r"D:\repos\a")];
    assert_eq!(
        map_event_to_workset(&nothing_on_disk(), &worksets, r"D:\repos\b"),
        None
    );
}

#[test]
fn map_event_to_workset_matches_a_workspace_kind_via_its_underlying_folder() {
    let repo = below(DIR, "repo");
    let ws_path = below(DIR, "proj.code-workspace");
    let disk = DiskFacts {
        git_roots: Vec::new(),
        workspaces: vec![(ws_path.clone(), WorkspaceFile::Folders(vec!["repo".to_string()]))],
    };

    let workset = build_workset(
        "test".to_string(),
        "#fff".to_string(),
        ws_path,
        RepositoryKind::Workspace,
        0,
        Vec::new(),
        "2026-07-20T00:00:00Z".to_string(),
    );
    let sub = below(&repo, "src");

    assert_eq!(
        map_event_to_workset(&disk, std::slice::from_ref(&workset), &repo),
        Some(workset.id)
    );
    assert_eq!(
        map_event_to_workset(&disk, std::slice::from_ref(&workset), &sub),
        Some(workset.id)
    );
}

#[test]
fn map_event_to_workset_ignores_a_workspace_kind_whose_file_is_gone() {
    let ws_path = below(DIR, "gone.code-workspace");
    let workset = build_workset(
        "test".to_string(),
        "#fff".to_string(),
        ws_path.clone(),
        RepositoryKind::Workspace,
        0,
        Vec::new(),
        "2026-07-20T00:00:00Z".to_string(),
    );
    assert_eq!(
        map_event_to_workset(&nothing_on_disk(), &[workset], &below(DIR, "repo")),
        None
    );
}

#[test]
fn apply_event_with_unmatched_cwd_is_recorded_and_not_persisted() {
    let worksets = [workset_at(r"D:\repos\a")];
    let mut agents = Agents::new();

    let result = agents.apply(&worksets, event(
            NormalizedEventKind::RunStarted,
            r"D:\repos\other",
            "s1",
            "t1",
        ));

    assert_eq!(result, None);
    assert_eq!(agents.unmatched.len(), 1);
    assert!(agents.runs.is_empty());
}

#[test]
fn duplicate_run_started_events_do_not_duplicate_the_run() {
    let repo = String::from(r"D:\repos\a");
    let worksets = [workset_at(&repo)];
    let mut agents = Agents::new();

    for _ in 0..2 {
        agents.apply(&worksets, event(NormalizedEventKind::RunStarted, &repo, "s1", "t1"));
    }

    let state = &agents;
    assert_eq!(state.runs.len(), 1);
    assert_eq!(state.runs[0].state, AgentState::Running);
}

#[test]
fn full_lifecycle_needs_input_to_running_to_ready_to_confirmed() {
    let repo = String::from(r"D:\repos\a");
    let worksets = [workset_at(&repo)];
    let mut agents = Agents::new();

    let workset_id = agents.apply(&worksets, event(NormalizedEventKind::RunStarted, &repo, "s1", "t1"))
    .unwrap();
    assert_eq!(
        agents.runs[0].state,
        AgentState::Running
    );

    agents.apply(&worksets, event(NormalizedEventKind::NeedsInput, &repo, "s1", "t1"));
    assert_eq!(
        agents.runs[0].state,
        AgentState::NeedsInput
    );
    agents.apply(&worksets, event(NormalizedEventKind::ToolUseObserved, &repo, "s1", "t1"));
    assert_eq!(
        agents.runs[0].state,
        AgentState::Running
    );

    agents.apply(&worksets, event(NormalizedEventKind::RunCompleted, &repo, "s1", "t1"));
    let state = &agents;
    assert_eq!(state.runs[0].state, AgentState::Ready);
    assert!(!state.runs[0].confirmed);
    assert_eq!(
        aggregate_all(&worksets, &state.runs, &RANKS)[&workset_id],
        AgentState::Ready
    );

    confirm_ready_and_recompute(&mut agents.runs, workset_id);
    let state = &agents;
    assert!(state.runs[0].confirmed);
    assert_eq!(
        aggregate_all(&worksets, &state.runs, &RANKS)[&workset_id],
        AgentState::Idle
    );
}

#[test]
fn tool_use_after_ready_resumes_running() {
    let repo = String::from(r"D:\repos\a");
    let worksets = [workset_at(&repo)];
    let mut agents = Agents::new();

    agents.apply(&worksets, event(NormalizedEventKind::RunStarted, &repo, "s1", "t1"));
    agents.apply(&worksets, event(NormalizedEventKind::RunCompleted, &repo, "s1", "t1"));
    assert_eq!(
        agents.runs[0].state,
        AgentState::Ready
    );

    agents.apply(&worksets, event(NormalizedEventKind::ToolUseObserved, &repo, "s1", "t1"));
    let state = &agents;
    assert_eq!(state.runs[0].state, AgentState::Running);
    assert!(!state.runs[0].confirmed);
}

#[test]
fn resuming_from_ready_keeps_the_elapsed_time_origin() {
    let repo = String::from(r"D:\repos\a");
    let worksets = [workset_at(&repo)];
    let mut agents = Agents::new();

    for kind in [
        NormalizedEventKind::RunStarted,
        NormalizedEventKind::RunCompleted,
    ] {
        agents.apply(&worksets, event_at(kind, &repo, "s1", "t1", "2026-07-24T00:00:00Z"));
    }

    agents.apply(&worksets, event_at(
            NormalizedEventKind::ToolUseObserved,
            &repo,
            "s1",
            "t1",
            "2026-07-24T03:45:59Z",
        ));

    let run = &agents.runs[0];
    assert_eq!(run.state, AgentState::Running);
    assert_eq!(run.last_transition_at, "2026-07-24T00:00:00Z");
}

#[test]
fn resuming_from_needs_input_restarts_the_elapsed_time_origin() {
    let repo = String::from(r"D:\repos\a");
    let worksets = [workset_at(&repo)];
    let mut agents = Agents::new();

    for kind in [
        NormalizedEventKind::RunStarted,
        NormalizedEventKind::NeedsInput,
    ] {
        agents.apply(&worksets, event_at(kind, &repo, "s1", "t1", "2026-07-24T00:00:00Z"));
    }

    agents.apply(&worksets, event_at(
            NormalizedEventKind::ToolUseObserved,
            &repo,
            "s1",
            "t1",
            "2026-07-24T03:45:59Z",
        ));

    let run = &agents.runs[0];
    assert_eq!(run.state, AgentState::Running);
    assert_eq!(run.last_transition_at, "2026-07-24T03:45:59Z");
}

#[test]
fn tool_use_observed_is_a_no_op_when_not_pending_input() {
    let repo = String::from(r"D:\repos\a");
    let worksets = [workset_at(&repo)];
    let mut agents = Agents::new();

    agents.apply(&worksets, event(NormalizedEventKind::RunStarted, &repo, "s1", "t1"));
    agents.apply(&worksets, event(NormalizedEventKind::ToolUseObserved, &repo, "s1", "t1"));

    assert_eq!(
        agents.runs[0].state,
        AgentState::Running
    );
}

#[test]
fn aggregate_all_defaults_worksets_with_no_runs_to_unknown() {
    let worksets = [workset_at(r"D:\repos\a")];
    let aggregates = aggregate_all(&worksets, &[], &RANKS);
    assert_eq!(aggregates[&worksets[0].id], AgentState::Unknown);
}
