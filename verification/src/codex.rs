//! The session-event-log format: a flat JSONL stream with a typed envelope
//! per line. A metadata record seeds session id, working directory and
//! model; message-bearing records become canonical messages; everything
//! else is ignored. Tool calls and their later outputs become independent
//! messages correlated only by the call id. Developer and system messages
//! are filtered out. The final order is a stable sort by timestamp text.

use vstd::prelude::*;

use crate::json::{
    json_of, jv_field, jv_field_str, obj_get, get_str, as_arr, parse_json_line, JsonNode,
    JsonV, nodes_view,
};
use crate::model::{
    msgs_view, BlockV, ContentBlock, MetaV, MsgV, NormalizedMessage, SessionMeta,
};
use crate::order::{sort_by_ts, sort_messages, upsert_msg, upsert_message};
use crate::text::{
    dec_text, join_ch, join_from, split_ch, split_str, str_eq, str_ends_with, strs_view,
    push_char,
};

verus! {

/// Ghost image of the session-log metadata.
pub ghost struct CodexMetaV {
    pub id: Seq<char>,
    pub cwd: Seq<char>,
    pub model: Option<Seq<char>>,
    pub timestamp: Seq<char>,
}

/// Metadata taken from the session-log metadata record.
pub struct CodexSessionMeta {
    pub id: String,
    pub cwd: String,
    pub model: Option<String>,
    pub timestamp: String,
}

impl View for CodexSessionMeta {
    type V = CodexMetaV;

    open spec fn view(&self) -> CodexMetaV {
        CodexMetaV {
            id: self.id@,
            cwd: self.cwd@,
            model: match &self.model {
                Some(m) => Some(m@),
                None => None,
            },
            timestamp: self.timestamp@,
        }
    }
}

/// The session id carried by a session-log filename: the name must end in
/// ".jsonl" and hold at least five dash-separated parts; the id is the last
/// five parts joined again (the uuid's own groups).
pub open spec fn codex_session_id_of(filename: Seq<char>) -> Option<Seq<char>> {
    if filename.len() < 6 || filename.skip(filename.len() - 6) != ".jsonl"@ {
        None
    } else {
        let name = filename.take(filename.len() - 6);
        let parts = split_ch(name, '-');
        if parts.len() < 5 {
            None
        } else {
            Some(join_ch(parts.skip(parts.len() - 5), '-'))
        }
    }
}

/// Extract the session id from a session-log filename.
pub fn extract_session_id(filename: &str) -> (r: Option<String>)
    ensures
        match r {
            Some(s) => codex_session_id_of(filename@) == Some(s@),
            None => codex_session_id_of(filename@) is None,
        },
{
    if !str_ends_with(filename, ".jsonl") {
        proof {
            reveal_strlit(".jsonl");
        }
        return None;
    }
    proof {
        reveal_strlit(".jsonl");
    }
    let n: usize = filename.unicode_len();
    let name = filename.substring_char(0, n - 6);
    let parts = split_str(name, '-');
    if parts.len() < 5 {
        return None;
    }
    let joined = join_from(&parts, parts.len() - 5, '-');
    proof {
        assert(strs_view(parts@).skip(parts@.len() - 5) =~= split_ch(name@, '-').skip(
            split_ch(name@, '-').len() - 5,
        ));
    }
    Some(joined)
}

/// Characters dropped from a timestamp when it is embedded in an id.
pub open spec fn strip_punct(s: Seq<char>) -> Seq<char>
    decreases s.len(),
{
    if s.len() == 0 {
        Seq::empty()
    } else {
        strip_punct(s.drop_last()) + (if s.last() == ':' || s.last() == '.' || s.last() == '-' {
            Seq::<char>::empty()
        } else {
            seq![s.last()]
        })
    }
}

/// The deterministic id synthesized for a record without one: the session
/// id, the running index, and the timestamp stripped of punctuation.
pub open spec fn gen_uuid_of(sid: Seq<char>, ts: Seq<char>, index: int) -> Seq<char> {
    "codex-"@ + sid + "-"@ + dec_text(index as nat) + "-"@ + strip_punct(ts)
}

/// Synthesize the deterministic id for one record.
pub fn generate_uuid(session_id: &str, timestamp: &str, index: usize) -> (r: String)
    ensures
        r@ == gen_uuid_of(session_id@, timestamp@, index as int),
{
    let mut out = String::new();
    out.append("codex-");
    out.append(session_id);
    out.append("-");
    crate::text::append_u64(&mut out, index as u64);
    out.append("-");
    let ghost pre = out@;
    let m: usize = timestamp.unicode_len();
    let mut i: usize = 0;
    proof {
        assert(strip_punct(timestamp@.take(0)) =~= Seq::<char>::empty());
        assert(out@ =~= pre + strip_punct(timestamp@.take(0)));
    }
    while i < m
        invariant
            i <= m,
            m == timestamp@.len(),
            out@ == pre + strip_punct(timestamp@.take(i as int)),
        decreases m - i,
    {
        let c = timestamp.get_char(i);
        if !(c == ':' || c == '.' || c == '-') {
            push_char(&mut out, c);
        }
        proof {
            assert(timestamp@.take(i + 1 as int).drop_last() =~= timestamp@.take(i as int));
            assert(timestamp@.take(i + 1 as int).last() == c);
            assert(out@ =~= pre + strip_punct(timestamp@.take(i + 1 as int)));
        }
        i = i + 1;
    }
    proof {
        assert(timestamp@.take(m as int) =~= timestamp@);
        assert(out@ =~= gen_uuid_of(session_id@, timestamp@, index as int));
    }
    out
}

/// One text block of a message record, if the item carries one.
pub open spec fn codex_block_of(j: JsonV) -> Option<BlockV> {
    match jv_field_str(j, "type"@) {
        Some(t) => if t == "input_text"@ || t == "output_text"@ || t == "text"@ {
            match jv_field_str(j, "text"@) {
                Some(tx) => if tx.len() > 0 {
                    Some(BlockV::Text { text: tx })
                } else {
                    None
                },
                None => None,
            }
        } else {
            None
        },
        None => None,
    }
}

/// The text blocks of a message record's content array.
pub open spec fn codex_blocks_of(items: Seq<JsonV>) -> Seq<BlockV>
    decreases items.len(),
{
    if items.len() == 0 {
        Seq::empty()
    } else {
        codex_blocks_of(items.drop_last()) + (match codex_block_of(items.last()) {
            Some(b) => seq![b],
            None => Seq::<BlockV>::empty(),
        })
    }
}

/// Texts of the items of a reasoning summary.
pub open spec fn summary_texts(items: Seq<JsonV>) -> Seq<Seq<char>>
    decreases items.len(),
{
    if items.len() == 0 {
        Seq::empty()
    } else {
        summary_texts(items.drop_last()) + (match jv_field_str(items.last(), "text"@) {
            Some(t) => seq![t],
            None => Seq::<Seq<char>>::empty(),
        })
    }
}

/// A string field's text, or a default.
pub open spec fn str_or(j: JsonV, key: Seq<char>, d: Seq<char>) -> Seq<char> {
    match jv_field_str(j, key) {
        Some(s) => s,
        None => d,
    }
}

/// Ghost state of the fold over a session log.
pub ghost struct CodexStV {
    pub meta: CodexMetaV,
    pub msgs: Seq<MsgV>,
    pub idx: int,
}

/// The fold's starting state.
pub open spec fn codex_init(sid: Seq<char>) -> CodexStV {
    CodexStV {
        meta: CodexMetaV {
            id: sid,
            cwd: Seq::empty(),
            model: None,
            timestamp: Seq::empty(),
        },
        msgs: Seq::empty(),
        idx: 0,
    }
}

/// Add one synthesized message to the state.
pub open spec fn codex_push(
    st: CodexStV,
    role: Seq<char>,
    ts: Seq<char>,
    content: Seq<BlockV>,
    filename: Seq<char>,
    sid: Seq<char>,
) -> CodexStV {
    let m = MsgV {
        uuid: gen_uuid_of(sid, ts, st.idx),
        role: role,
        timestamp: ts,
        content: content,
        source_file: Some(filename),
    };
    CodexStV { meta: st.meta, msgs: upsert_msg(st.msgs, m), idx: st.idx + 1 }
}

/// What one response item does to the state.
pub open spec fn codex_item(
    st: CodexStV,
    p: JsonV,
    ts: Seq<char>,
    filename: Seq<char>,
    sid: Seq<char>,
) -> CodexStV {
    let it = str_or(p, "type"@, Seq::empty());
    if it == "message"@ {
        let role = str_or(p, "role"@, "user"@);
        if role == "developer"@ || role == "system"@ {
            st
        } else {
            match jv_field(p, "content"@) {
                Some(JsonV::Arr(items)) => {
                    let blocks = codex_blocks_of(items);
                    if blocks.len() == 0 {
                        st
                    } else {
                        codex_push(st, role, ts, blocks, filename, sid)
                    }
                },
                _ => st,
            }
        }
    } else if it == "function_call"@ || it == "custom_tool_call"@ {
        let call_id = str_or(p, "call_id"@, Seq::empty());
        let name = str_or(p, "name"@, "unknown"@);
        let arguments = str_or(p, "arguments"@, "{}"@);
        let input = match json_of(arguments) {
            Some(v) => v,
            None => JsonV::Null,
        };
        codex_push(
            st,
            "assistant"@,
            ts,
            seq![BlockV::ToolUse { id: call_id, name: name, input: input }],
            filename,
            sid,
        )
    } else if it == "function_call_output"@ || it == "custom_tool_call_output"@ {
        let call_id = str_or(p, "call_id"@, Seq::empty());
        let output = match jv_field(p, "output"@) {
            Some(v) => v,
            None => JsonV::Null,
        };
        codex_push(
            st,
            "user"@,
            ts,
            seq![
                BlockV::ToolResult { tool_use_id: call_id, content: output, is_error: None },
            ],
            filename,
            sid,
        )
    } else if it == "reasoning"@ {
        match jv_field(p, "summary"@) {
            Some(JsonV::Arr(items)) => {
                let txt = join_ch(summary_texts(items), '\n');
                if txt.len() == 0 {
                    st
                } else {
                    codex_push(
                        st,
                        "assistant"@,
                        ts,
                        seq![BlockV::Thinking { thinking: txt }],
                        filename,
                        sid,
                    )
                }
            },
            _ => st,
        }
    } else if it == "web_search_call"@ {
        let call_id = str_or(p, "id"@, Seq::empty());
        let status = str_or(p, "status"@, Seq::empty());
        if status == "completed"@ {
            st
        } else {
            codex_push(
                st,
                "assistant"@,
                ts,
                seq![
                    BlockV::ToolUse {
                        id: call_id,
                        name: "web_search"@,
                        input: JsonV::Obj(Seq::empty()),
                    },
                ],
                filename,
                sid,
            )
        }
    } else {
        st
    }
}

/// What one raw line does to the state: unparseable lines and unknown
/// record shapes change nothing.
pub open spec fn codex_step(
    st: CodexStV,
    line: Seq<char>,
    filename: Seq<char>,
    sid: Seq<char>,
) -> CodexStV {
    if line.len() == 0 {
        st
    } else {
        match json_of(line) {
            None => st,
            Some(j) => match (jv_field_str(j, "timestamp"@), jv_field_str(j, "type"@), jv_field(
                j,
                "payload"@,
            )) {
                (Some(ts), Some(rt), Some(p)) => {
                    if rt == "session_meta"@ {
                        let meta = CodexMetaV {
                            id: str_or(p, "id"@, st.meta.id),
                            cwd: str_or(p, "cwd"@, st.meta.cwd),
                            model: match jv_field_str(p, "model_provider"@) {
                                Some(m) => Some(m),
                                None => st.meta.model,
                            },
                            timestamp: str_or(p, "timestamp"@, st.meta.timestamp),
                        };
                        CodexStV { meta: meta, msgs: st.msgs, idx: st.idx }
                    } else if rt == "response_item"@ {
                        codex_item(st, p, ts, filename, sid)
                    } else {
                        st
                    }
                },
                _ => st,
            },
        }
    }
}

/// The fold over every line of the file, in order.
pub open spec fn codex_fold(lines: Seq<Seq<char>>, filename: Seq<char>, sid: Seq<char>) -> CodexStV
    decreases lines.len(),
{
    if lines.len() == 0 {
        codex_init(sid)
    } else {
        codex_step(codex_fold(lines.drop_last(), filename, sid), lines.last(), filename, sid)
    }
}

/// What parsing a whole session log yields: None when the filename carries
/// no session id, else the metadata and the messages in timestamp order.
pub open spec fn codex_parse_of(filename: Seq<char>, lines: Seq<Seq<char>>) -> Option<
    (CodexMetaV, Seq<MsgV>),
> {
    match codex_session_id_of(filename) {
        Some(sid) => {
            let st = codex_fold(lines, filename, sid);
            Some((st.meta, sort_by_ts(st.msgs)))
        },
        None => None,
    }
}

/// A step adds at most one message and never loses the index.
proof fn lemma_codex_step_idx(st: CodexStV, line: Seq<char>, filename: Seq<char>, sid: Seq<char>)
    ensures
        st.idx <= codex_step(st, line, filename, sid).idx <= st.idx + 1,
{
}

/// Extract the text blocks of a content array.
fn codex_blocks(items: &Vec<JsonNode>) -> (r: Vec<ContentBlock>)
    ensures
        r@.map_values(|b: ContentBlock| b@) == codex_blocks_of(nodes_view(items@)),
{
    let ghost vs = nodes_view(items@);
    let mut out: Vec<ContentBlock> = Vec::new();
    let mut i: usize = 0;
    proof {
        assert(vs.take(0) =~= Seq::<JsonV>::empty());
        assert(out@.map_values(|b: ContentBlock| b@) =~= codex_blocks_of(vs.take(0)));
    }
    while i < items.len()
        invariant
            i <= items@.len(),
            vs == nodes_view(items@),
            vs.len() == items@.len(),
            out@.map_values(|b: ContentBlock| b@) == codex_blocks_of(vs.take(i as int)),
        decreases items@.len() - i,
    {
        let item = &items[i];
        proof {
            assert(item@ == vs[i as int]);
        }
        let keep: bool = match get_str(item, "type") {
            Some(t) => str_eq(t.as_str(), "input_text") || str_eq(t.as_str(), "output_text")
                || str_eq(t.as_str(), "text"),
            None => false,
        };
        if keep {
            match get_str(item, "text") {
                Some(tx) => {
                    if !tx.as_str().is_empty() {
                        let b = ContentBlock::Text { text: tx.clone() };
                        out.push(b);
                    }
                },
                None => {},
            }
        }
        proof {
            reveal_strlit("input_text");
            reveal_strlit("output_text");
            reveal_strlit("text");
            reveal_strlit("type");
            assert(vs.take(i + 1 as int).drop_last() =~= vs.take(i as int));
            assert(vs.take(i + 1 as int).last() == vs[i as int]);
            assert(out@.map_values(|b: ContentBlock| b@) =~= codex_blocks_of(vs.take(i + 1 as int)));
        }
        i = i + 1;
    }
    proof {
        assert(vs.take(items@.len() as int) =~= vs);
    }
    out
}

/// Apply one raw line to the running parse state.
fn codex_apply_line(
    meta: &mut CodexSessionMeta,
    msgs: &mut Vec<NormalizedMessage>,
    idx: &mut usize,
    line: &str,
    filename: &str,
    sid: &str,
)
    requires
        *old(idx) < usize::MAX,
    ensures
        ({
            let st0 = CodexStV {
                meta: old(meta)@,
                msgs: msgs_view(old(msgs)@),
                idx: *old(idx) as int,
            };
            let st1 = codex_step(st0, line@, filename@, sid@);
            final(meta)@ == st1.meta && msgs_view(final(msgs)@) == st1.msgs && *final(idx) as int
                == st1.idx
        }),
{
    if line.is_empty() {
        return ;
    }
    let parsed = parse_json_line(line);
    let j = match parsed {
        Some(j) => j,
        None => {
            return ;
        },
    };
    let ts: String = match get_str(&j, "timestamp") {
        Some(t) => t.clone(),
        None => {
            return ;
        },
    };
    let rt: String = match get_str(&j, "type") {
        Some(t) => t.clone(),
        None => {
            return ;
        },
    };
    let p: &JsonNode = match obj_get(&j, "payload") {
        Some(p) => p,
        None => {
            return ;
        },
    };
    if str_eq(rt.as_str(), "session_meta") {
        match get_str(p, "id") {
            Some(s) => {
                meta.id = s.clone();
            },
            None => {},
        }
        match get_str(p, "cwd") {
            Some(s) => {
                meta.cwd = s.clone();
            },
            None => {},
        }
        match get_str(p, "model_provider") {
            Some(s) => {
                meta.model = Some(s.clone());
            },
            None => {},
        }
        match get_str(p, "timestamp") {
            Some(s) => {
                meta.timestamp = s.clone();
            },
            None => {},
        }
        return ;
    }
    if !str_eq(rt.as_str(), "response_item") {
        return ;
    }
    let it: String = match get_str(p, "type") {
        Some(t) => t.clone(),
        None => String::new(),
    };
    if str_eq(it.as_str(), "message") {
        let role: String = match get_str(p, "role") {
            Some(r) => r.clone(),
            None => {
                let u: String = String::from_str("user");
                u
            },
        };
        if str_eq(role.as_str(), "developer") || str_eq(role.as_str(), "system") {
            return ;
        }
        let items = match obj_get(p, "content") {
            Some(c) => match as_arr(c) {
                Some(items) => items,
                None => {
                    return ;
                },
            },
            None => {
                return ;
            },
        };
        let blocks = codex_blocks(items);
        if blocks.len() == 0 {
            return ;
        }
        let uuid = generate_uuid(sid, ts.as_str(), *idx);
        let m = NormalizedMessage {
            uuid,
            role,
            timestamp: ts,
            content: blocks,
            source_file: Some(filename.to_owned()),
        };
        proof {
            assert(m@.content =~= codex_blocks_of(jv_field(p@, "content"@)->Some_0->Arr_0));
        }
        upsert_message(msgs, m);
        *idx = *idx + 1;
    } else if str_eq(it.as_str(), "function_call") || str_eq(it.as_str(), "custom_tool_call") {
        let call_id: String = match get_str(p, "call_id") {
            Some(s) => s.clone(),
            None => String::new(),
        };
        let name: String = match get_str(p, "name") {
            Some(s) => s.clone(),
            None => {
                let u: String = String::from_str("unknown");
                u
            },
        };
        let arguments: String = match get_str(p, "arguments") {
            Some(s) => s.clone(),
            None => {
                let u: String = String::from_str("{}");
                u
            },
        };
        let input: JsonNode = match parse_json_line(arguments.as_str()) {
            Some(v) => v,
            None => JsonNode::Null,
        };
        let uuid = generate_uuid(sid, ts.as_str(), *idx);
        let mut blocks: Vec<ContentBlock> = Vec::new();
        blocks.push(ContentBlock::ToolUse { id: call_id, name, input });
        let m = NormalizedMessage {
            uuid,
            role: String::from_str("assistant"),
            timestamp: ts,
            content: blocks,
            source_file: Some(filename.to_owned()),
        };
        proof {
            assert(m@.content =~= seq![
                BlockV::ToolUse {
                    id: str_or(p@, "call_id"@, Seq::empty()),
                    name: str_or(p@, "name"@, "unknown"@),
                    input: match json_of(str_or(p@, "arguments"@, "{}"@)) {
                        Some(v) => v,
                        None => JsonV::Null,
                    },
                },
            ]);
        }
        upsert_message(msgs, m);
        *idx = *idx + 1;
    } else if str_eq(it.as_str(), "function_call_output") || str_eq(
        it.as_str(),
        "custom_tool_call_output",
    ) {
        let call_id: String = match get_str(p, "call_id") {
            Some(s) => s.clone(),
            None => String::new(),
        };
        let output: JsonNode = match obj_get(p, "output") {
            Some(v) => crate::json::clone_json(v),
            None => JsonNode::Null,
        };
        let uuid = generate_uuid(sid, ts.as_str(), *idx);
        let mut blocks: Vec<ContentBlock> = Vec::new();
        blocks.push(
            ContentBlock::ToolResult { tool_use_id: call_id, content: output, is_error: None },
        );
        let m = NormalizedMessage {
            uuid,
            role: String::from_str("user"),
            timestamp: ts,
            content: blocks,
            source_file: Some(filename.to_owned()),
        };
        proof {
            assert(m@.content =~= seq![
                BlockV::ToolResult {
                    tool_use_id: str_or(p@, "call_id"@, Seq::empty()),
                    content: match jv_field(p@, "output"@) {
                        Some(v) => v,
                        None => JsonV::Null,
                    },
                    is_error: None,
                },
            ]);
        }
        upsert_message(msgs, m);
        *idx = *idx + 1;
    } else if str_eq(it.as_str(), "reasoning") {
        let items = match obj_get(p, "summary") {
            Some(c) => match as_arr(c) {
                Some(items) => items,
                None => {
                    return ;
                },
            },
            None => {
                return ;
            },
        };
        let ghost ivs = nodes_view(items@);
        let mut texts: Vec<String> = Vec::new();
        let mut i: usize = 0;
        proof {
            assert(ivs.take(0) =~= Seq::<JsonV>::empty());
            assert(strs_view(texts@) =~= summary_texts(ivs.take(0)));
        }
        while i < items.len()
            invariant
                i <= items@.len(),
                ivs == nodes_view(items@),
                ivs.len() == items@.len(),
                strs_view(texts@) == summary_texts(ivs.take(i as int)),
            decreases items@.len() - i,
        {
            proof {
                assert(items@[i as int]@ == ivs[i as int]);
            }
            match get_str(&items[i], "text") {
                Some(t) => {
                    texts.push(t.clone());
                },
                None => {},
            }
            proof {
                assert(ivs.take(i + 1 as int).drop_last() =~= ivs.take(i as int));
                assert(ivs.take(i + 1 as int).last() == ivs[i as int]);
                assert(strs_view(texts@) =~= summary_texts(ivs.take(i + 1 as int)));
            }
            i = i + 1;
        }
        proof {
            assert(ivs.take(items@.len() as int) =~= ivs);
            assert(strs_view(texts@).skip(0) =~= strs_view(texts@));
        }
        let txt = join_from(&texts, 0, '\n');
        if txt.as_str().is_empty() {
            return ;
        }
        let uuid = generate_uuid(sid, ts.as_str(), *idx);
        let mut blocks: Vec<ContentBlock> = Vec::new();
        blocks.push(ContentBlock::Thinking { thinking: txt });
        let m = NormalizedMessage {
            uuid,
            role: String::from_str("assistant"),
            timestamp: ts,
            content: blocks,
            source_file: Some(filename.to_owned()),
        };
        proof {
            assert(m@.content =~= seq![
                BlockV::Thinking { thinking: join_ch(summary_texts(ivs), '\n') },
            ]);
        }
        upsert_message(msgs, m);
        *idx = *idx + 1;
    } else if str_eq(it.as_str(), "web_search_call") {
        let call_id: String = match get_str(p, "id") {
            Some(s) => s.clone(),
            None => String::new(),
        };
        let status: String = match get_str(p, "status") {
            Some(s) => s.clone(),
            None => String::new(),
        };
        if str_eq(status.as_str(), "completed") {
            return ;
        }
        let uuid = generate_uuid(sid, ts.as_str(), *idx);
        let mut blocks: Vec<ContentBlock> = Vec::new();
        blocks.push(
            ContentBlock::ToolUse {
                id: call_id,
                name: String::from_str("web_search"),
                input: JsonNode::Obj(Vec::new()),
            },
        );
        let m = NormalizedMessage {
            uuid,
            role: String::from_str("assistant"),
            timestamp: ts,
            content: blocks,
            source_file: Some(filename.to_owned()),
        };
        proof {
            assert(crate::json::pairs_view(Seq::<(String, JsonNode)>::empty()) =~= Seq::<
                (Seq<char>, JsonV),
            >::empty());
            assert(m@.content =~= seq![
                BlockV::ToolUse {
                    id: str_or(p@, "id"@, Seq::empty()),
                    name: "web_search"@,
                    input: JsonV::Obj(Seq::empty()),
                },
            ]);
        }
        upsert_message(msgs, m);
        *idx = *idx + 1;
    }
}

/// Parse a whole session log: the lines of the raw file, in file order,
/// plus the filename the session id is taken from.
pub fn parse_codex_session(filename: &str, lines: &Vec<String>) -> (r: Result<
    (CodexSessionMeta, Vec<NormalizedMessage>),
    crate::model::ParseError,
>)
    ensures
        r is Ok <==> codex_parse_of(filename@, strs_view(lines@)) is Some,
        r matches Ok((meta, msgs)) ==> codex_parse_of(filename@, strs_view(lines@)) == Some(
            (meta@, msgs_view(msgs@)),
        ),
        r matches Err(e) ==> e is InvalidFilename,
{
    let sid: String = match extract_session_id(filename) {
        Some(s) => s,
        None => {
            return Err(crate::model::ParseError::InvalidFilename);
        },
    };
    let mut meta = CodexSessionMeta {
        id: sid.clone(),
        cwd: String::new(),
        model: None,
        timestamp: String::new(),
    };
    let mut msgs: Vec<NormalizedMessage> = Vec::new();
    let mut idx: usize = 0;
    let ghost lviews = strs_view(lines@);
    let mut i: usize = 0;
    proof {
        assert(lviews.take(0) =~= Seq::<Seq<char>>::empty());
        assert(msgs_view(msgs@) =~= Seq::<MsgV>::empty());
        assert(meta@ == codex_init(sid@).meta);
    }
    while i < lines.len()
        invariant
            i <= lines@.len(),
            idx <= i,
            lviews == strs_view(lines@),
            lviews.len() == lines@.len(),
            sid@ == codex_session_id_of(filename@)->Some_0,
            codex_session_id_of(filename@) is Some,
            ({
                let st = codex_fold(lviews.take(i as int), filename@, sid@);
                meta@ == st.meta && msgs_view(msgs@) == st.msgs && idx as int == st.idx
            }),
        decreases lines@.len() - i,
    {
        proof {
            lemma_codex_step_idx(
                codex_fold(lviews.take(i as int), filename@, sid@),
                lviews[i as int],
                filename@,
                sid@,
            );
        }
        codex_apply_line(&mut meta, &mut msgs, &mut idx, lines[i].as_str(), filename, sid.as_str());
        proof {
            assert(lviews.take(i + 1 as int).drop_last() =~= lviews.take(i as int));
            assert(lviews.take(i + 1 as int).last() == lviews[i as int]);
            assert(lines@[i as int]@ == lviews[i as int]);
        }
        i = i + 1;
    }
    proof {
        assert(lviews.take(lines@.len() as int) =~= lviews);
    }
    let sorted = sort_messages(msgs);
    Ok((meta, sorted))
}


/// Package the session-log metadata as canonical session metadata.
pub fn to_session_meta(codex_meta: &CodexSessionMeta, project_id: &str, message_count: usize) -> (r:
    SessionMeta)
    ensures
        r@ == (MetaV {
            id: codex_meta@.id,
            project: project_id@,
            title: None,
            created_at: codex_meta@.timestamp,
            updated_at: codex_meta@.timestamp,
            message_count: message_count as int,
            last_memory_uuid: None,
            source: "codex"@,
        }),
{
    SessionMeta {
        id: codex_meta.id.clone(),
        project: project_id.to_owned(),
        title: None,
        created_at: codex_meta.timestamp.clone(),
        updated_at: codex_meta.timestamp.clone(),
        message_count,
        last_memory_uuid: None,
        source: String::from_str("codex"),
    }
}

} // verus!
