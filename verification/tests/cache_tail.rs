//! Cache behavior and the tail protocol: consistency after writes, title
//! preservation, eviction, and offset arithmetic on a growing file.

use feather::cache::SessionCache;
use feather::model::{
    ContentBlock, NormalizedMessage, NormalizedSession, SessionEvent, SessionMeta,
};
use feather::tail::{read_from_offset, tail_advance, tail_prepare, TailState};

fn msg(uuid: &str, ts: &str, text: &str) -> NormalizedMessage {
    NormalizedMessage {
        uuid: uuid.to_string(),
        role: "user".to_string(),
        timestamp: ts.to_string(),
        content: vec![ContentBlock::Text { text: text.to_string() }],
        source_file: None,
    }
}

fn session(id: &str, msgs: Vec<NormalizedMessage>) -> NormalizedSession {
    NormalizedSession {
        meta: SessionMeta {
            id: id.to_string(),
            project: "-proj".to_string(),
            title: None,
            created_at: "t0".to_string(),
            updated_at: "t1".to_string(),
            message_count: msgs.len(),
            last_memory_uuid: None,
            source: "primary".to_string(),
        },
        messages: msgs,
        normalized_path: format!("/out/{}.jsonl", id),
    }
}

#[test]
fn cache_consistency_after_upsert() {
    let mut cache = SessionCache::new("/out".to_string(), "/out/memory.jsonl".to_string());
    cache.upsert(session("s1", vec![msg("m1", "t1", "a"), msg("m2", "t2", "b")]));
    let got = cache.get("s1").expect("the upserted session must be readable");
    assert_eq!(got.meta.message_count, got.messages.len());
    let metas = cache.list_sessions(&vec![]);
    assert!(metas.iter().any(|m| m.id == "s1"));
}

#[test]
fn cache_title_preserved_across_reparse() {
    let mut cache = SessionCache::new("/out".to_string(), "/m".to_string());
    let mut first = session("s1", vec![msg("m1", "t1", "a")]);
    first.meta.title = Some("A good title".to_string());
    cache.upsert(first);
    // The re-parse has no title: the cached one must be kept.
    cache.upsert(session("s1", vec![msg("m1", "t1", "a"), msg("m2", "t2", "b")]));
    let got = cache.get("s1").unwrap();
    assert_eq!(got.meta.title.as_deref(), Some("A good title"));
    assert_eq!(got.messages.len(), 2);
}

#[test]
fn cache_update_title_and_events() {
    let mut cache = SessionCache::new("/out".to_string(), "/m".to_string());
    let cursor = cache.subscribe();
    cache.upsert(session("s1", vec![msg("m1", "t1", "a")]));
    cache.update_title("s1", "Named".to_string());
    let (events, next, skipped) = cache.poll_events(cursor);
    assert!(!skipped);
    assert_eq!(events.len(), 2);
    match &events[0] {
        SessionEvent::Updated { session_id, new_messages } => {
            assert_eq!(session_id, "s1");
            assert_eq!(new_messages.len(), 1);
        }
        _ => panic!("the first event must be the update"),
    }
    match &events[1] {
        SessionEvent::TitleUpdated { session_id, title } => {
            assert_eq!(session_id, "s1");
            assert_eq!(title, "Named");
        }
        _ => panic!("the second event must be the title update"),
    }
    let (more, _, _) = cache.poll_events(next);
    assert_eq!(more.len(), 0);
    assert_eq!(cache.get("s1").unwrap().meta.title.as_deref(), Some("Named"));
}

#[test]
fn cache_eviction_is_idempotent() {
    let mut cache = SessionCache::new("/out".to_string(), "/m".to_string());
    cache.upsert(session("keep", vec![msg("m1", "t1", "a")]));
    cache.upsert(session("gone", vec![msg("m2", "t2", "b")]));
    let missing = vec!["gone".to_string()];
    let metas = cache.list_sessions(&missing);
    assert_eq!(metas.len(), 1);
    assert_eq!(metas[0].id, "keep");
    assert!(cache.get("gone").is_none());
    let metas2 = cache.list_sessions(&missing);
    assert_eq!(metas2.len(), 1);
    assert_eq!(metas2[0].id, "keep");
}

#[test]
fn cache_append_message_creates_and_grows() {
    let mut cache = SessionCache::new("/out".to_string(), "/m".to_string());
    cache.append_message("fresh", "-proj", msg("m1", "t1", "hello"));
    let got = cache.get("fresh").unwrap();
    assert_eq!(got.meta.message_count, 1);
    assert_eq!(got.meta.created_at, "t1");
    assert_eq!(got.meta.source, "primary");
    assert_eq!(got.normalized_path, "/out/fresh.jsonl");
    cache.append_message("fresh", "-proj", msg("m2", "t2", "again"));
    let got2 = cache.get("fresh").unwrap();
    assert_eq!(got2.meta.message_count, 2);
    assert_eq!(got2.meta.updated_at, "t2");
}

#[test]
fn cache_extraction_watermark() {
    let mut cache = SessionCache::new("/out".to_string(), "/m".to_string());
    cache.upsert(session("s1", vec![msg("m1", "t1", "a"), msg("m2", "t2", "b"), msg("m3", "t3", "c")]));
    assert_eq!(cache.sessions_needing_extraction(3), vec!["s1".to_string()]);
    assert_eq!(cache.sessions_needing_extraction(4), Vec::<String>::new());
    cache.mark_memory_extracted("s1", "m2".to_string());
    // Two messages stand at or past the watermark now.
    assert_eq!(cache.sessions_needing_extraction(2), vec!["s1".to_string()]);
    assert_eq!(cache.sessions_needing_extraction(3), Vec::<String>::new());
    let slice = cache.get_messages_for_extraction("s1", 10).unwrap();
    assert_eq!(slice.len(), 1);
    assert_eq!(slice[0].uuid, "m3");
}

#[test]
fn tail_scenario_partial_lines_withheld() {
    // A freshly created empty canonical file.
    let mut data: Vec<u8> = Vec::new();
    let (lines, off) = read_from_offset(&data, 0);
    assert_eq!(lines.len(), 0);
    assert_eq!(off, 0);

    // One complete JSON line with its newline: the poll returns it and the
    // offset advances past it.
    data.extend_from_slice(b"{\"uuid\":\"m1\"}\n");
    let (lines, off) = read_from_offset(&data, off);
    assert_eq!(lines.len(), 1);
    assert_eq!(lines[0], b"{\"uuid\":\"m1\"}".to_vec());
    assert_eq!(off, 14);

    // A second line without its newline yet: withheld.
    data.extend_from_slice(b"{\"uuid\":");
    let (lines, off2) = read_from_offset(&data, off);
    assert_eq!(lines.len(), 0);
    assert_eq!(off2, off);

    // Completing the line makes the next poll return it.
    data.extend_from_slice(b"\"m2\"}\n");
    let (lines, off3) = read_from_offset(&data, off2);
    assert_eq!(lines.len(), 1);
    assert_eq!(lines[0], b"{\"uuid\":\"m2\"}".to_vec());
    assert_eq!(off3, data.len());
}

#[test]
fn tail_offsets_are_exact_and_monotonic() {
    let mut data: Vec<u8> = b"one\n".to_vec();
    let (lines, off) = read_from_offset(&data, 0);
    assert_eq!(lines, vec![b"one".to_vec()]);
    assert_eq!(off, 4);
    // The file grows by two complete lines: the next call returns exactly
    // those two and advances by exactly their byte length.
    data.extend_from_slice(b"two\nthree\n");
    let (lines, off2) = read_from_offset(&data, off);
    assert_eq!(lines, vec![b"two".to_vec(), b"three".to_vec()]);
    assert_eq!(off2, off + 10);
    // No further writes: an empty list and the same offset.
    let (lines, off3) = read_from_offset(&data, off2);
    assert_eq!(lines.len(), 0);
    assert_eq!(off3, off2);
}

#[test]
fn tail_state_resets_on_rewrite() {
    let mut st = TailState { offset: 0, last_mtime: None, missing_logged: false, append_only: false };
    // The file does not exist yet: wait.
    assert_eq!(tail_prepare(&mut st, None), None);
    assert!(st.missing_logged);
    // It appears: read from the start.
    assert_eq!(tail_prepare(&mut st, Some(5)), Some(0));
    tail_advance(&mut st, 40);
    // Unchanged modification time: keep reading from where we stopped.
    assert_eq!(tail_prepare(&mut st, Some(5)), Some(40));
    // A rewrite changes the time: reset to the start of the new epoch.
    assert_eq!(tail_prepare(&mut st, Some(9)), Some(0));

    let mut ap = TailState { offset: 7, last_mtime: Some(5), missing_logged: false, append_only: true };
    // Append-only files skip rewrite detection.
    assert_eq!(tail_prepare(&mut ap, Some(9)), Some(7));
}

#[test]
fn cursor_is_base64_of_the_offset() {
    assert_eq!(feather::tail::encode_cursor(0), "MA");
    assert_eq!(feather::tail::encode_cursor(1234), "MTIzNA");
}
