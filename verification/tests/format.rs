//! The canonical wire format and the path logic: exact line text, JSON
//! validity, project-id derivation and its reconstruction, and dispatch
//! classification of changed paths.

use feather::canon::{message_to_line, messages_to_content};
use feather::model::{ContentBlock, ImageSource, NormalizedMessage};
use feather::normalize::{
    classify_changed_path, naive_project_path, project_id_from_path, reconstruct_candidates,
    ChangedPath,
};
use feather::track::{chrono_like_today, is_safe_session_id, ActivityTracker, TmuxManager};

fn text_msg(uuid: &str, text: &str) -> NormalizedMessage {
    NormalizedMessage {
        uuid: uuid.to_string(),
        role: "user".to_string(),
        timestamp: "2026-01-01T00:00:00Z".to_string(),
        content: vec![ContentBlock::Text { text: text.to_string() }],
        source_file: None,
    }
}

#[test]
fn canonical_line_exact_text() {
    let m = text_msg("u1", "hi");
    assert_eq!(
        message_to_line(&m),
        r#"{"uuid":"u1","role":"user","timestamp":"2026-01-01T00:00:00Z","content":[{"type":"text","text":"hi"}]}"#
    );
    let content = messages_to_content(&vec![m]);
    assert!(content.ends_with('\n'));
    assert_eq!(content.lines().count(), 1);
}

#[test]
fn canonical_line_escapes_and_parses_back() {
    let m = NormalizedMessage {
        uuid: "u\"2".to_string(),
        role: "assistant".to_string(),
        timestamp: "t".to_string(),
        content: vec![
            ContentBlock::Text { text: "line1\nline2\t\"quoted\" \\ done".to_string() },
            ContentBlock::ToolResult {
                tool_use_id: "c1".to_string(),
                content: feather::json::JsonNode::Null,
                is_error: Some(true),
            },
            ContentBlock::Image {
                source: Some(ImageSource {
                    source_type: "base64".to_string(),
                    media_type: "image/png".to_string(),
                    data: "AA==".to_string(),
                }),
            },
        ],
        source_file: Some("src.jsonl".to_string()),
    };
    let line = message_to_line(&m);
    let parsed: serde_json::Value = serde_json::from_str(&line).expect("the line must be valid JSON");
    assert_eq!(parsed["uuid"], "u\"2");
    assert_eq!(parsed["role"], "assistant");
    assert_eq!(parsed["content"][0]["type"], "text");
    assert_eq!(parsed["content"][0]["text"], "line1\nline2\t\"quoted\" \\ done");
    assert_eq!(parsed["content"][1]["type"], "tool_result");
    assert_eq!(parsed["content"][1]["tool_use_id"], "c1");
    assert_eq!(parsed["content"][1]["is_error"], true);
    assert_eq!(parsed["content"][2]["type"], "image");
    assert_eq!(parsed["content"][2]["source"]["media_type"], "image/png");
    assert_eq!(parsed["source_file"], "src.jsonl");
}

#[test]
fn tool_use_keeps_opaque_input() {
    let lines: Vec<String> = vec![
        r#"{"timestamp":"t1","type":"response_item","payload":{"type":"function_call","call_id":"c1","name":"calc","arguments":"{\"nested\":{\"deep\":[1,2,{\"x\":null}]},\"f\":1.25}"}}"#.to_string(),
    ];
    let fname = "rollout-2026-02-03T10-30-00-019c2157-e0e9-7bb2-a886-d3b1a9e24d4f.jsonl";
    let (_, msgs) = feather::codex::parse_codex_session(fname, &lines).unwrap();
    let line = message_to_line(&msgs[0]);
    let parsed: serde_json::Value = serde_json::from_str(&line).unwrap();
    assert_eq!(parsed["content"][0]["input"]["nested"]["deep"][2]["x"], serde_json::Value::Null);
    assert_eq!(parsed["content"][0]["input"]["f"], 1.25);
}

#[test]
fn project_id_round_trip() {
    assert_eq!(project_id_from_path("/home/user/my-app"), "-home-user-my-app");
    assert_eq!(project_id_from_path("  /srv  "), "-srv");
    assert_eq!(project_id_from_path(""), "-");
    let cands = reconstruct_candidates("-home-user-my-app");
    assert_eq!(cands[0], "/home/user/my/app");
    assert!(cands.contains(&"/home/user/my-app".to_string()));
    assert!(cands.contains(&"/home/user-my-app".to_string()));
    assert_eq!(naive_project_path("-home-user-my-app"), "/home/user/my/app");
}

#[test]
fn changed_paths_are_classified() {
    assert!(matches!(
        classify_changed_path("/r/.pi/agent/sessions/enc/1_a.jsonl"),
        ChangedPath::PiSource
    ));
    assert!(matches!(
        classify_changed_path("/r/.codex/sessions/2026/02/03/rollout-x.jsonl"),
        ChangedPath::CodexSource
    ));
    match classify_changed_path("/home/u/.primary/projects/-home-u-proj/abcd1234.jsonl") {
        ChangedPath::PrimarySession { project_id, session_id } => {
            assert_eq!(project_id, "-home-u-proj");
            assert_eq!(session_id, "abcd1234");
        }
        _ => panic!("a main-tree session file must be classified"),
    }
    match classify_changed_path("/home/u/.primary/projects/p1/sess1/subagents/side.jsonl") {
        ChangedPath::PrimarySession { project_id, session_id } => {
            assert_eq!(project_id, "p1");
            assert_eq!(session_id, "sess1", "a side file maps to its parent session");
        }
        _ => panic!("a subagent file must map to its parent session"),
    }
    assert!(matches!(
        classify_changed_path("/home/u/.primary/projects/p1/agent-x.jsonl"),
        ChangedPath::Ignored
    ));
    assert!(matches!(classify_changed_path("/tmp/notes.txt"), ChangedPath::Ignored));
}

#[test]
fn safe_session_ids() {
    assert!(is_safe_session_id("abc-123_X"));
    assert!(!is_safe_session_id(""));
    assert!(!is_safe_session_id("a;rm -rf"));
    assert!(!is_safe_session_id("a b"));
}

#[test]
fn flat_date_formatting() {
    assert_eq!(chrono_like_today(0), "1970-01-01");
    // 86400 * 40 seconds: day 40 of the flat calendar.
    assert_eq!(chrono_like_today(86400 * 40), "1970-02-11");
}

#[test]
fn activity_window() {
    let mut tracker = ActivityTracker::new();
    tracker.mark_active("s1", 1_000_000);
    assert!(tracker.is_active("s1", 1_000_000 + 59_999));
    assert!(!tracker.is_active("s1", 1_000_000 + 60_000));
    assert!(!tracker.is_active("unknown", 1_000_000));
    tracker.cleanup_stale(1_000_000 + 119_999);
    assert!(tracker.is_active("s1", 1_000_000 + 1), "a fresh entry survives cleanup");
    tracker.cleanup_stale(1_000_000 + 120_000);
    assert!(!tracker.is_active("s1", 1_000_000 + 1), "a stale entry is dropped");
}

#[test]
fn tmux_registry_and_names() {
    let mgr = TmuxManager::new("/work".to_string());
    assert_eq!(mgr.get_session_name("abc12345-def6-7890"), "feather-abc12345");
    assert_eq!(mgr.get_session_name("feather-new-7"), "feather-new-7");
    assert_eq!(mgr.get_session_name("codex-17"), "codex-17");
    assert_eq!(mgr.get_session_name("ab"), "feather-ab");

    let mut mgr = mgr;
    let info = feather::track::TmuxSessionInfo {
        session_id: "abc12345".to_string(),
        tmux_name: "feather-abc12345".to_string(),
        start_time_ms: 42,
        cwd: "/work".to_string(),
    };
    mgr.register_session("abc12345".to_string(), info);
    let got = mgr.get_session_info("abc12345").unwrap();
    assert_eq!(got.tmux_name, "feather-abc12345");
    assert_eq!(got.start_time_ms, 42);
    mgr.remove_session("abc12345");
    assert!(mgr.get_session_info("abc12345").is_none());
}
