//! What the hook reads and sends on.

use repodeck::application::agent_status_service::NormalizedEventKind;
use repodeck::tools::hook::{HookReport, adapt_report, event_kind, read_capped, wire_name};

#[test]
fn read_capped_passes_through_input_within_the_cap() {
    let input = b"hello".as_slice();
    let result = read_capped(input, 10);
    assert_eq!(result, b"hello");
}

#[test]
fn read_capped_truncates_to_empty_when_input_exceeds_the_cap() {
    let input = b"hello world".as_slice();
    let result = read_capped(input, 5);
    assert!(result.is_empty());
}

#[test]
fn read_capped_passes_through_input_exactly_at_the_cap() {
    let input = b"hello".as_slice();
    let result = read_capped(input, 5);
    assert_eq!(result, b"hello");
}

/// Reads a report and writes the event that is sent on, as the hook does.
fn build_wire_payload(raw: &[u8]) -> Option<Vec<u8>> {
    let value: serde_json::Value = serde_json::from_slice(raw).ok()?;
    let field = |name: &str| value.get(name).and_then(|v| v.as_str()).map(str::to_string);
    let report = HookReport {
        session_id: field("session_id"),
        turn_id: field("turn_id"),
        cwd: field("cwd"),
        hook_event_name: field("hook_event_name"),
        model: field("model"),
    };
    let event = adapt_report(report, "2026-07-25T00:00:00Z".to_string())?;
    let text = |s: &str| serde_json::Value::String(s.to_string());
    let mut out = serde_json::Map::new();
    out.insert("event".to_string(), text(wire_name(event.event)));
    out.insert("session_id".to_string(), text(&event.session_id));
    serde_json::to_vec(&serde_json::Value::Object(out)).ok()
}

fn report(fields: &[(&str, &str)]) -> Vec<u8> {
    let mut out = serde_json::Map::new();
    for (name, value) in fields {
        out.insert(name.to_string(), serde_json::Value::String(value.to_string()));
    }
    serde_json::Value::Object(out).to_string().into_bytes()
}

#[test]
fn build_wire_payload_adapts_a_valid_event() {
    let raw = report(&[
        ("session_id", "s"),
        ("turn_id", "t"),
        ("cwd", r"C:\repo"),
        ("hook_event_name", "UserPromptSubmit"),
    ]);

    let payload = build_wire_payload(&raw).expect("valid event should adapt");
    let value: serde_json::Value = serde_json::from_slice(&payload).unwrap();
    assert_eq!(value["event"], "run_started");
    assert_eq!(value["session_id"], "s");
}

#[test]
fn build_wire_payload_rejects_malformed_json() {
    assert!(build_wire_payload(b"not json").is_none());
}

#[test]
fn build_wire_payload_rejects_missing_required_field() {
    let raw = report(&[("turn_id", "t"), ("cwd", "C:\\repo"), ("hook_event_name", "Stop")]);
    assert!(build_wire_payload(&raw).is_none());
}

#[test]
fn build_wire_payload_rejects_unrecognized_hook_name() {
    let raw = report(&[
        ("session_id", "s"),
        ("turn_id", "t"),
        ("cwd", r"C:\repo"),
        ("hook_event_name", "SomeFutureHook"),
    ]);
    assert!(build_wire_payload(&raw).is_none());
}

#[test]
fn every_hook_has_its_event() {
    assert_eq!(event_kind("UserPromptSubmit"), Some(NormalizedEventKind::RunStarted));
    assert_eq!(event_kind("PermissionRequest"), Some(NormalizedEventKind::NeedsInput));
    assert_eq!(event_kind("PostToolUse"), Some(NormalizedEventKind::ToolUseObserved));
    assert_eq!(event_kind("Stop"), Some(NormalizedEventKind::RunCompleted));
    assert_eq!(event_kind("stop"), None);
}

#[test]
fn an_event_carries_the_report() {
    let report = HookReport {
        session_id: Some("s".to_string()),
        turn_id: Some("t".to_string()),
        cwd: Some(r"C:\repo".to_string()),
        hook_event_name: Some("Stop".to_string()),
        model: Some("m".to_string()),
    };
    let event = adapt_report(report, "2026-07-25T00:00:00Z".to_string()).unwrap();
    assert_eq!((event.session_id.as_str(), event.turn_id.as_str()), ("s", "t"));
    assert_eq!((event.cwd.as_str(), event.model), (r"C:\repo", Some("m".to_string())));
    assert_eq!(event.occurred_at, "2026-07-25T00:00:00Z");
    assert_eq!(event.schema_version, 1);
}
