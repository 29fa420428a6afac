//! Runs of coding agents and what they are doing.

use vstd::prelude::*;

use crate::ids::Uuid;

verus! {

#[derive(Clone, Copy, Debug, PartialEq, Eq, Structural)]
pub enum AgentState {
    Running,
    NeedsInput,
    Ready,
    Blocked,
    Idle,
    Unknown,
}

/// How urgent each state is; the more urgent one is shown where several meet.
#[derive(Clone, Copy, Debug, PartialEq, Eq, Structural)]
pub struct StateRanks {
    pub running: u8,
    pub needs_input: u8,
    pub ready: u8,
    pub blocked: u8,
    pub idle: u8,
    pub unknown: u8,
}

impl StateRanks {
    pub open spec fn rank(self, state: AgentState) -> u8 {
        match state {
            AgentState::Running => self.running,
            AgentState::NeedsInput => self.needs_input,
            AgentState::Ready => self.ready,
            AgentState::Blocked => self.blocked,
            AgentState::Idle => self.idle,
            AgentState::Unknown => self.unknown,
        }
    }

    pub fn rank_of(&self, state: AgentState) -> (r: u8)
        ensures
            r == self.rank(state),
    {
        match state {
            AgentState::Running => self.running,
            AgentState::NeedsInput => self.needs_input,
            AgentState::Ready => self.ready,
            AgentState::Blocked => self.blocked,
            AgentState::Idle => self.idle,
            AgentState::Unknown => self.unknown,
        }
    }
}

/// One turn of an agent's session, as far as it has come.
#[derive(Clone, Debug)]
pub struct AgentRun {
    pub session_id: String,
    pub turn_id: String,
    pub workset_id: Uuid,
    pub state: AgentState,
    pub model: Option<String>,
    /// The user has seen that the run is ready.
    pub confirmed: bool,
    pub started_at: String,
    pub last_transition_at: String,
}

} // verus!
