//! The hook that an agent calls to report an event.

use vstd::prelude::*;

use crate::application::agent_status_service::{NormalizedEvent, NormalizedEventKind};
use crate::text;

verus! {

/// What was read, or nothing at all where it is longer than `max_bytes`. A part is never taken for
/// the whole.
pub fn read_capped(input: &[u8], max_bytes: usize) -> (r: Vec<u8>)
    ensures
        input@.len() <= max_bytes ==> r@ == input@,
        input@.len() > max_bytes ==> r@.len() == 0,
{
    let mut out: Vec<u8> = Vec::new();
    if input.len() > max_bytes {
        return out;
    }
    let mut i: usize = 0;
    while i < input.len()
        invariant
            i <= input@.len(),
            out@ == input@.take(i as int),
        decreases input@.len() - i,
    {
        out.push(input[i]);
        assert(out@ =~= input@.take(i + 1));
        i += 1;
    }
    assert(out@ =~= input@);
    out
}

/// What the agent's hooks report.
pub open spec fn kind_of_hook(name: Seq<char>) -> Option<NormalizedEventKind> {
    if name == "UserPromptSubmit"@ {
        Some(NormalizedEventKind::RunStarted)
    } else if name == "PermissionRequest"@ {
        Some(NormalizedEventKind::NeedsInput)
    } else if name == "PostToolUse"@ {
        Some(NormalizedEventKind::ToolUseObserved)
    } else if name == "Stop"@ {
        Some(NormalizedEventKind::RunCompleted)
    } else {
        None
    }
}

pub fn event_kind(hook_event_name: &str) -> (r: Option<NormalizedEventKind>)
    ensures
        r == kind_of_hook(hook_event_name@),
{
    if text::same_text(hook_event_name, "UserPromptSubmit") {
        Some(NormalizedEventKind::RunStarted)
    } else if text::same_text(hook_event_name, "PermissionRequest") {
        Some(NormalizedEventKind::NeedsInput)
    } else if text::same_text(hook_event_name, "PostToolUse") {
        Some(NormalizedEventKind::ToolUseObserved)
    } else if text::same_text(hook_event_name, "Stop") {
        Some(NormalizedEventKind::RunCompleted)
    } else {
        None
    }
}

/// What an event is called when it is sent on.
pub open spec fn name_on_the_wire(kind: NormalizedEventKind) -> Seq<char> {
    match kind {
        NormalizedEventKind::RunStarted => "run_started"@,
        NormalizedEventKind::NeedsInput => "needs_input"@,
        NormalizedEventKind::ToolUseObserved => "tool_use_observed"@,
        NormalizedEventKind::RunCompleted => "run_completed"@,
    }
}

pub fn wire_name(kind: NormalizedEventKind) -> (r: &'static str)
    ensures
        r@ == name_on_the_wire(kind),
{
    match kind {
        NormalizedEventKind::RunStarted => "run_started",
        NormalizedEventKind::NeedsInput => "needs_input",
        NormalizedEventKind::ToolUseObserved => "tool_use_observed",
        NormalizedEventKind::RunCompleted => "run_completed",
    }
}

/// The members of a hook's report, as far as it has them.
#[derive(Debug)]
pub struct HookReport {
    pub session_id: Option<String>,
    pub turn_id: Option<String>,
    pub cwd: Option<String>,
    pub hook_event_name: Option<String>,
    pub model: Option<String>,
}

/// The report has everything that is needed, and comes from a hook that is known.
pub open spec fn is_usable(report: HookReport) -> bool {
    &&& report.session_id is Some
    &&& report.turn_id is Some
    &&& report.cwd is Some
    &&& report.hook_event_name matches Some(name)
    &&& kind_of_hook(name@) is Some
}

/// Turns a hook's report into an event; nothing where something is missing or the hook is unknown.
pub fn adapt_report(report: HookReport, occurred_at: String) -> (r: Option<NormalizedEvent>)
    ensures
        r is Some <==> is_usable(report),
        r matches Some(event) ==> {
            &&& event.schema_version == 1
            &&& event.source@ == "codex"@
            &&& Some(event.event) == kind_of_hook(report.hook_event_name->0@)
            &&& Some(event.session_id) == report.session_id
            &&& Some(event.turn_id) == report.turn_id
            &&& Some(event.cwd) == report.cwd
            &&& event.model == report.model
            &&& event.occurred_at == occurred_at
        },
{
    let kind = match &report.hook_event_name {
        Some(name) => event_kind(name.as_str()),
        None => None,
    };
    match (report.session_id, report.turn_id, report.cwd, kind) {
        (Some(session_id), Some(turn_id), Some(cwd), Some(event)) => Some(
            NormalizedEvent {
                schema_version: 1,
                source: text::owned("codex"),
                event,
                session_id,
                turn_id,
                cwd,
                model: report.model,
                occurred_at,
            },
        ),
        _ => None,
    }
}

} // verus!
