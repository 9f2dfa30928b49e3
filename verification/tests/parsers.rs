//! Parser behavior: session-id extraction, deterministic ids, and the
//! end-to-end scenarios for each source format.

use feather::primary;
use feather::codex;
use feather::json::JsonNode;
use feather::model::{ContentBlock, ParseError};
use feather::pi;
use feather::timefmt::timestamp_string;

#[test]
fn codex_test_extract_session_id() {
    assert_eq!(
        codex::extract_session_id(
            "rollout-2026-02-03T02-32-13-019c2157-e0e9-7bb2-a886-d3b1a9e24d4f.jsonl"
        ),
        Some("019c2157-e0e9-7bb2-a886-d3b1a9e24d4f".to_string())
    );
}

#[test]
fn test_generate_uuid() {
    let uuid = codex::generate_uuid("abc123", "2026-02-03T10:30:00Z", 5);
    assert!(uuid.starts_with("codex-abc123-5-"));
}

#[test]
fn pi_test_extract_session_id() {
    assert_eq!(
        pi::extract_session_id("1738000000000_abc12345-def6-7890"),
        Some("abc12345-def6-7890".to_string())
    );
    assert_eq!(
        pi::extract_session_id("abc12345-def6-7890"),
        Some("abc12345-def6-7890".to_string())
    );
}

#[test]
fn test_extract_project_id() {
    assert_eq!(
        pi::extract_project_id("--home--user--projects--code"),
        "-home-user-projects-code"
    );
}

#[test]
fn test_extract_timestamp_string() {
    let val = JsonNode::Str("2026-02-07T10:30:00Z".to_string());
    assert_eq!(timestamp_string(&val), "2026-02-07T10:30:00Z");
}

#[test]
fn test_extract_timestamp_number() {
    // 1738886400000 = 2025-02-07T00:00:00Z
    let val = JsonNode::Num("1738886400000".to_string());
    let ts = timestamp_string(&val);
    assert!(!ts.is_empty());
    assert!(ts.starts_with("2025-02-07"));
    assert_eq!(ts, "2025-02-07T00:00:00.000Z");
}

#[test]
fn codex_invalid_filename_is_rejected() {
    assert_eq!(codex::extract_session_id("notes.txt"), None);
    assert_eq!(codex::extract_session_id("x.jsonl"), None);
    let lines: Vec<String> = vec![];
    match codex::parse_codex_session("x.jsonl", &lines) {
        Err(e) => assert_eq!(e.message(), "invalid session filename"),
        Ok(_) => panic!("a filename without a session id must be rejected"),
    }
}

fn codex_filename() -> &'static str {
    "rollout-2026-02-03T10-30-00-019c2157-e0e9-7bb2-a886-d3b1a9e24d4f.jsonl"
}

#[test]
fn codex_session_scenario() {
    // A metadata record, a user message, and a tool call with no output yet.
    let mut lines: Vec<String> = vec![
        r#"{"timestamp":"2026-02-03T10:30:00Z","type":"session_meta","payload":{"id":"sess-1","cwd":"/home/user/proj","model_provider":"prov","timestamp":"2026-02-03T10:30:00Z"}}"#.to_string(),
        r#"{"timestamp":"2026-02-03T10:30:01Z","type":"response_item","payload":{"type":"message","role":"user","content":[{"type":"input_text","text":"hello"}]}}"#.to_string(),
        r#"{"timestamp":"2026-02-03T10:30:02Z","type":"response_item","payload":{"type":"function_call","call_id":"call_1","name":"shell","arguments":"{\"cmd\":\"ls\"}"}}"#.to_string(),
    ];
    let (meta, msgs) = codex::parse_codex_session(codex_filename(), &lines).unwrap();
    assert_eq!(meta.id, "sess-1");
    assert_eq!(meta.cwd, "/home/user/proj");
    assert_eq!(msgs.len(), 2);
    assert_eq!(msgs[0].role, "user");
    match &msgs[0].content[0] {
        ContentBlock::Text { text } => assert_eq!(text, "hello"),
        _ => panic!("first message must be a text block"),
    }
    assert_eq!(msgs[1].role, "assistant");
    let tool_use_id = match &msgs[1].content[0] {
        ContentBlock::ToolUse { id, name, .. } => {
            assert_eq!(name, "shell");
            id.clone()
        }
        _ => panic!("second message must be a tool use"),
    };

    // A matching tool output arrives later: the re-parse gains one message
    // whose tool_use_id correlates with the earlier call.
    lines.push(
        r#"{"timestamp":"2026-02-03T10:30:03Z","type":"response_item","payload":{"type":"function_call_output","call_id":"call_1","output":"done"}}"#.to_string(),
    );
    let (_, msgs2) = codex::parse_codex_session(codex_filename(), &lines).unwrap();
    assert_eq!(msgs2.len(), 3);
    assert_eq!(msgs2[2].role, "user");
    match &msgs2[2].content[0] {
        ContentBlock::ToolResult { tool_use_id: tid, .. } => assert_eq!(tid, &tool_use_id),
        _ => panic!("third message must be a tool result"),
    }
}

#[test]
fn codex_skips_developer_and_system_messages() {
    let lines: Vec<String> = vec![
        r#"{"timestamp":"2026-02-03T10:30:01Z","type":"response_item","payload":{"type":"message","role":"developer","content":[{"type":"input_text","text":"internal"}]}}"#.to_string(),
        r#"{"timestamp":"2026-02-03T10:30:02Z","type":"response_item","payload":{"type":"message","role":"system","content":[{"type":"input_text","text":"internal"}]}}"#.to_string(),
        r#"{"timestamp":"2026-02-03T10:30:03Z","type":"response_item","payload":{"type":"message","role":"assistant","content":[{"type":"output_text","text":"visible"}]}}"#.to_string(),
    ];
    let (_, msgs) = codex::parse_codex_session(codex_filename(), &lines).unwrap();
    assert_eq!(msgs.len(), 1);
    assert_eq!(msgs[0].role, "assistant");
}

#[test]
fn pi_branch_scenario() {
    // root -> A -> B is the current branch; root -> C was abandoned.
    let lines: Vec<String> = vec![
        r#"{"type":"session","id":"p1","timestamp":"2026-02-07T10:00:00Z","cwd":"/w"}"#.to_string(),
        r#"{"type":"message","id":"r","parentId":null,"timestamp":"2026-02-07T10:00:01Z","message":{"role":"user","content":"root"}}"#.to_string(),
        r#"{"type":"message","id":"a","parentId":"r","timestamp":"2026-02-07T10:00:02Z","message":{"role":"assistant","content":[{"type":"text","text":"A"}]}}"#.to_string(),
        r#"{"type":"message","id":"c","parentId":"r","timestamp":"2026-02-07T10:00:03Z","message":{"role":"assistant","content":[{"type":"text","text":"C"}]}}"#.to_string(),
        r#"{"type":"message","id":"b","parentId":"a","timestamp":"2026-02-07T10:00:04Z","message":{"role":"user","content":"B"}}"#.to_string(),
    ];
    let (meta, msgs) = pi::parse_pi_session("ctx.jsonl", &lines);
    assert_eq!(meta.id, "p1");
    assert_eq!(meta.cwd, "/w");
    assert_eq!(msgs.len(), 3);
    assert_eq!(msgs[0].uuid, "pi-p1-r");
    assert_eq!(msgs[1].uuid, "pi-p1-a");
    assert_eq!(msgs[2].uuid, "pi-p1-b");
    for m in &msgs {
        for b in &m.content {
            if let ContentBlock::Text { text } = b {
                assert_ne!(text, "C", "abandoned branch content must never appear");
            }
        }
    }
}

#[test]
fn pi_tool_names_and_fields_are_remapped() {
    let lines: Vec<String> = vec![
        r#"{"type":"session","id":"p2","timestamp":"2026-02-07T10:00:00Z","cwd":"/w"}"#.to_string(),
        r#"{"type":"message","id":"e1","parentId":null,"timestamp":"2026-02-07T10:00:01Z","message":{"role":"assistant","content":[{"type":"toolCall","id":"t1","name":"edit","arguments":{"path":"f.rs","oldText":"a","newText":"b"}},{"type":"toolCall","id":"t2","name":"fetch","arguments":{}}]}}"#.to_string(),
    ];
    let (_, msgs) = pi::parse_pi_session("ctx.jsonl", &lines);
    assert_eq!(msgs.len(), 1);
    match &msgs[0].content[0] {
        ContentBlock::ToolUse { name, input, .. } => {
            assert_eq!(name, "Edit");
            match input {
                JsonNode::Obj(pairs) => {
                    let keys: Vec<&str> = pairs.iter().map(|p| p.0.as_str()).collect();
                    assert!(keys.contains(&"file_path"));
                    assert!(keys.contains(&"old_string"));
                    assert!(keys.contains(&"new_string"));
                    assert!(!keys.contains(&"path"));
                }
                _ => panic!("edit arguments must stay an object"),
            }
        }
        _ => panic!("first block must be a tool use"),
    }
    match &msgs[0].content[1] {
        ContentBlock::ToolUse { name, .. } => assert_eq!(name, "Fetch"),
        _ => panic!("second block must be a tool use"),
    }
}

#[test]
fn pi_shell_entries_render_with_exit_code() {
    let lines: Vec<String> = vec![
        r#"{"type":"session","id":"p3","timestamp":"2026-02-07T10:00:00Z","cwd":"/w"}"#.to_string(),
        r#"{"type":"message","id":"s1","parentId":null,"timestamp":"2026-02-07T10:00:01Z","message":{"role":"bashExecution","command":"ls","output":"a.txt","exitCode":3}}"#.to_string(),
        r#"{"type":"message","id":"s2","parentId":"s1","timestamp":"2026-02-07T10:00:02Z","message":{"role":"bashExecution","command":"pwd","output":"/w","exitCode":2.5}}"#.to_string(),
    ];
    let (_, msgs) = pi::parse_pi_session("ctx.jsonl", &lines);
    assert_eq!(msgs.len(), 2);
    match &msgs[0].content[0] {
        ContentBlock::Text { text } => assert_eq!(text, "$ ls\na.txt\n[exit code: 3]"),
        _ => panic!("shell entry must render as text"),
    }
    match &msgs[1].content[0] {
        // A fractional exit code is not an integer: no exit-code suffix.
        ContentBlock::Text { text } => assert_eq!(text, "$ pwd\n/w"),
        _ => panic!("shell entry must render as text"),
    }
}

#[test]
fn primary_chain_propagation_scenario() {
    let lines: Vec<String> = vec![
        r#"{"type":"user","uuid":"u0","timestamp":"2026-01-01T00:00:01Z","message":{"role":"user","content":"fine"}}"#.to_string(),
        r#"{"type":"user","uuid":"u1","isVisibleInTranscriptOnly":true,"timestamp":"2026-01-01T00:00:02Z","message":{"role":"user","content":"internal"}}"#.to_string(),
        r#"{"type":"assistant","uuid":"a1","parentUuid":"u1","timestamp":"2026-01-01T00:00:03Z","message":{"role":"assistant","content":[{"type":"text","text":"reply to internal"}]}}"#.to_string(),
        r#"{"type":"assistant","uuid":"a2","parentUuid":"u0","timestamp":"2026-01-01T00:00:04Z","message":{"role":"assistant","content":[{"type":"text","text":"reply to fine"}]}}"#.to_string(),
    ];
    let mut msgs = Vec::new();
    let mut title = None;
    primary::parse_jsonl_file(&mut msgs, &mut title, &lines, "s.jsonl");
    let ids: Vec<&str> = msgs.iter().map(|m| m.uuid.as_str()).collect();
    assert!(ids.contains(&"u0"));
    assert!(ids.contains(&"a2"), "an unrelated sibling reply is retained");
    assert!(!ids.contains(&"u1"), "the flagged message is excluded");
    assert!(!ids.contains(&"a1"), "the direct reply to it is excluded too");
}

#[test]
fn primary_summary_sets_title_and_last_write_wins() {
    let lines: Vec<String> = vec![
        r#"{"type":"summary","summary":"First title"}"#.to_string(),
        r#"{"type":"user","uuid":"m1","timestamp":"t1","message":{"role":"user","content":"one"}}"#.to_string(),
        r#"{"type":"user","uuid":"m1","timestamp":"t2","message":{"role":"user","content":"two"}}"#.to_string(),
    ];
    let mut msgs = Vec::new();
    let mut title = None;
    primary::parse_jsonl_file(&mut msgs, &mut title, &lines, "s.jsonl");
    assert_eq!(title.as_deref(), Some("First title"));
    assert_eq!(msgs.len(), 1);
    match &msgs[0].content[0] {
        ContentBlock::Text { text } => assert_eq!(text, "two"),
        _ => panic!("expected a text block"),
    }
}

#[test]
fn normalize_rejects_empty_sessions() {
    let lines: Vec<String> = vec![r#"{"timestamp":"t","type":"event_msg","payload":{}}"#.to_string()];
    match feather::normalize::normalize_codex(codex_filename(), &lines, "/out") {
        Err(ParseError::EmptySession) => {}
        _ => panic!("a parse with zero messages must not be persisted"),
    }
}

#[test]
fn normalize_primary_merges_side_files_and_skips_suggestions() {
    let main_lines: Vec<String> = vec![
        r#"{"type":"summary","summary":"Session title"}"#.to_string(),
        r#"{"type":"user","uuid":"u1","timestamp":"2026-01-01T00:00:01Z","message":{"role":"user","content":"main"}}"#.to_string(),
    ];
    let sub_files: Vec<(String, Vec<String>)> = vec![
        (
            "agent-side.jsonl".to_string(),
            vec![
                r#"{"type":"assistant","uuid":"s1","timestamp":"2026-01-01T00:00:02Z","message":{"role":"assistant","content":[{"type":"text","text":"from side file"}]}}"#.to_string(),
            ],
        ),
        (
            "agent-suggestion-1.jsonl".to_string(),
            vec![
                r#"{"type":"user","uuid":"x1","timestamp":"2026-01-01T00:00:03Z","message":{"role":"user","content":"throwaway"}}"#.to_string(),
            ],
        ),
    ];
    let (session, content) =
        feather::normalize::normalize_primary("-p", "sess42", &main_lines, &sub_files, "/out")
            .unwrap();
    assert_eq!(session.meta.id, "sess42");
    assert_eq!(session.meta.title.as_deref(), Some("Session title"));
    assert_eq!(session.meta.message_count, 2);
    assert_eq!(session.meta.source, "primary");
    assert_eq!(session.normalized_path, "/out/sess42.jsonl");
    let ids: Vec<&str> = session.messages.iter().map(|m| m.uuid.as_str()).collect();
    assert_eq!(ids, vec!["u1", "s1"], "side-file messages merge in; suggestion files do not");
    assert_eq!(content.lines().count(), 2);
    // Re-running on the same input is byte-identical.
    let (_, content2) =
        feather::normalize::normalize_primary("-p", "sess42", &main_lines, &sub_files, "/out")
            .unwrap();
    assert_eq!(content, content2);
}

#[test]
fn codex_messages_sort_by_timestamp() {
    let lines: Vec<String> = vec![
        r#"{"timestamp":"2026-02-03T10:30:05Z","type":"response_item","payload":{"type":"message","role":"assistant","content":[{"type":"output_text","text":"later"}]}}"#.to_string(),
        r#"{"timestamp":"2026-02-03T10:30:01Z","type":"response_item","payload":{"type":"message","role":"user","content":[{"type":"input_text","text":"earlier"}]}}"#.to_string(),
    ];
    let (_, msgs) = codex::parse_codex_session(codex_filename(), &lines).unwrap();
    assert_eq!(msgs.len(), 2);
    assert_eq!(msgs[0].timestamp, "2026-02-03T10:30:01Z");
    assert_eq!(msgs[1].timestamp, "2026-02-03T10:30:05Z");
}
