//! The canonical wire format: one JSON line per message, with the exact
//! field names and tagged-union shape that every downstream reader relies
//! on. The text of a line, and of a whole canonical file, is a function of
//! the message values alone, which is what makes re-normalization
//! reproducible byte for byte.

use vstd::prelude::*;

use crate::json::{append_json, jv_text, JsonV};
use crate::model::{BlockV, ContentBlock, MsgV, NormalizedMessage, msgs_view};
use crate::text::push_char;

verus! {

/// The text of one content block.
pub open spec fn block_text(b: BlockV) -> Seq<char> {
    match b {
        BlockV::Text { text } => "{\"type\":\"text\",\"text\":"@ + jv_text(JsonV::Str(text))
            + "}"@,
        BlockV::Thinking { thinking } => "{\"type\":\"thinking\",\"thinking\":"@ + jv_text(
            JsonV::Str(thinking),
        ) + "}"@,
        BlockV::ToolUse { id, name, input } => "{\"type\":\"tool_use\",\"id\":"@ + jv_text(
            JsonV::Str(id),
        ) + ",\"name\":"@ + jv_text(JsonV::Str(name)) + ",\"input\":"@ + jv_text(input) + "}"@,
        BlockV::ToolResult { tool_use_id, content, is_error } => "{\"type\":\"tool_result\",\"tool_use_id\":"@
            + jv_text(JsonV::Str(tool_use_id)) + ",\"content\":"@ + jv_text(content) + (
        match is_error {
            None => Seq::<char>::empty(),
            Some(true) => ",\"is_error\":true"@,
            Some(false) => ",\"is_error\":false"@,
        }) + "}"@,
        BlockV::Image { source } => "{\"type\":\"image\""@ + (match source {
            None => Seq::<char>::empty(),
            Some(src) => ",\"source\":{\"type\":"@ + jv_text(JsonV::Str(src.source_type))
                + ",\"media_type\":"@ + jv_text(JsonV::Str(src.media_type)) + ",\"data\":"@
                + jv_text(JsonV::Str(src.data)) + "}"@,
        }) + "}"@,
    }
}

/// Comma-separated texts of the content blocks.
pub open spec fn blocks_text(blocks: Seq<BlockV>) -> Seq<char>
    decreases blocks.len(),
{
    if blocks.len() == 0 {
        Seq::empty()
    } else if blocks.len() == 1 {
        block_text(blocks.last())
    } else {
        blocks_text(blocks.drop_last()) + seq![','] + block_text(blocks.last())
    }
}

/// The canonical line of one message, without the trailing newline.
pub open spec fn canonical_line(m: MsgV) -> Seq<char> {
    "{\"uuid\":"@ + jv_text(JsonV::Str(m.uuid)) + ",\"role\":"@ + jv_text(JsonV::Str(m.role))
        + ",\"timestamp\":"@ + jv_text(JsonV::Str(m.timestamp)) + ",\"content\":["@ + blocks_text(
        m.content,
    ) + "]"@ + (match m.source_file {
        None => Seq::<char>::empty(),
        Some(f) => ",\"source_file\":"@ + jv_text(JsonV::Str(f)),
    }) + "}"@
}

/// The whole canonical file: one line per message, each newline-terminated.
pub open spec fn canonical_content(msgs: Seq<MsgV>) -> Seq<char>
    decreases msgs.len(),
{
    if msgs.len() == 0 {
        Seq::empty()
    } else {
        canonical_content(msgs.drop_last()) + canonical_line(msgs.last()) + seq!['\n']
    }
}

/// Append a JSON string literal (quotes and escapes included).
pub fn append_str_json(out: &mut String, s: &str)
    ensures
        final(out)@ == old(out)@ + jv_text(JsonV::Str(s@)),
{
    push_char(out, '"');
    crate::json::append_escaped(out, s);
    push_char(out, '"');
    proof {
        assert(out@ =~= old(out)@ + jv_text(JsonV::Str(s@)));
    }
}

/// Append the canonical text of one content block.
pub fn append_block(out: &mut String, b: &ContentBlock)
    ensures
        final(out)@ == old(out)@ + block_text(b@),
{
    match b {
        ContentBlock::Text { text } => {
            out.append("{\"type\":\"text\",\"text\":");
            append_str_json(out, text.as_str());
            out.append("}");
            proof {
                assert(out@ =~= old(out)@ + block_text(b@));
            }
        },
        ContentBlock::Thinking { thinking } => {
            out.append("{\"type\":\"thinking\",\"thinking\":");
            append_str_json(out, thinking.as_str());
            out.append("}");
            proof {
                assert(out@ =~= old(out)@ + block_text(b@));
            }
        },
        ContentBlock::ToolUse { id, name, input } => {
            out.append("{\"type\":\"tool_use\",\"id\":");
            append_str_json(out, id.as_str());
            out.append(",\"name\":");
            append_str_json(out, name.as_str());
            out.append(",\"input\":");
            append_json(out, input);
            out.append("}");
            proof {
                assert(out@ =~= old(out)@ + block_text(b@));
            }
        },
        ContentBlock::ToolResult { tool_use_id, content, is_error } => {
            out.append("{\"type\":\"tool_result\",\"tool_use_id\":");
            append_str_json(out, tool_use_id.as_str());
            out.append(",\"content\":");
            append_json(out, content);
            match is_error {
                None => {},
                Some(true) => {
                    out.append(",\"is_error\":true");
                },
                Some(false) => {
                    out.append(",\"is_error\":false");
                },
            }
            out.append("}");
            proof {
                assert(out@ =~= old(out)@ + block_text(b@));
            }
        },
        ContentBlock::Image { source } => {
            out.append("{\"type\":\"image\"");
            match source {
                None => {},
                Some(src) => {
                    out.append(",\"source\":{\"type\":");
                    append_str_json(out, src.source_type.as_str());
                    out.append(",\"media_type\":");
                    append_str_json(out, src.media_type.as_str());
                    out.append(",\"data\":");
                    append_str_json(out, src.data.as_str());
                    out.append("}");
                },
            }
            out.append("}");
            proof {
                assert(out@ =~= old(out)@ + block_text(b@));
            }
        },
    }
}

/// The canonical line of one message, as this library writes it.
pub fn message_to_line(m: &NormalizedMessage) -> (r: String)
    ensures
        r@ == canonical_line(m@),
{
    let mut out = String::new();
    out.append("{\"uuid\":");
    append_str_json(&mut out, m.uuid.as_str());
    out.append(",\"role\":");
    append_str_json(&mut out, m.role.as_str());
    out.append(",\"timestamp\":");
    append_str_json(&mut out, m.timestamp.as_str());
    out.append(",\"content\":[");
    let ghost bs = m@.content;
    let ghost pre = out@;
    let mut i: usize = 0;
    proof {
        assert(bs.take(0) =~= Seq::<BlockV>::empty());
        assert(bs.len() == m.content@.len());
    }
    while i < m.content.len()
        invariant
            i <= m.content@.len(),
            bs == m@.content,
            bs.len() == m.content@.len(),
            forall|k: int| 0 <= k < bs.len() ==> bs[k] == m.content@[k]@,
            out@ == pre + blocks_text(bs.take(i as int)),
        decreases m.content@.len() - i,
    {
        if i > 0 {
            push_char(&mut out, ',');
        }
        append_block(&mut out, &m.content[i]);
        proof {
            assert(bs.take(i + 1 as int).drop_last() =~= bs.take(i as int));
            assert(bs.take(i + 1 as int).last() == bs[i as int]);
            assert(out@ =~= pre + blocks_text(bs.take(i + 1 as int)));
        }
        i = i + 1;
    }
    proof {
        assert(bs.take(m.content@.len() as int) =~= bs);
    }
    out.append("]");
    match &m.source_file {
        None => {},
        Some(f) => {
            out.append(",\"source_file\":");
            append_str_json(&mut out, f.as_str());
        },
    }
    out.append("}");
    proof {
        assert(out@ =~= canonical_line(m@));
    }
    out
}

/// The full canonical file content for a message list.
pub fn messages_to_content(msgs: &Vec<NormalizedMessage>) -> (r: String)
    ensures
        r@ == canonical_content(msgs_view(msgs@)),
{
    let mut out = String::new();
    let ghost ms = msgs_view(msgs@);
    let mut i: usize = 0;
    proof {
        assert(ms.take(0) =~= Seq::<MsgV>::empty());
    }
    while i < msgs.len()
        invariant
            i <= msgs@.len(),
            ms == msgs_view(msgs@),
            ms.len() == msgs@.len(),
            out@ == canonical_content(ms.take(i as int)),
        decreases msgs@.len() - i,
    {
        let line = message_to_line(&msgs[i]);
        out.append(line.as_str());
        push_char(&mut out, '\n');
        proof {
            assert(ms[i as int] == msgs@[i as int]@);
            assert(ms.take(i + 1 as int).drop_last() =~= ms.take(i as int));
            assert(ms.take(i + 1 as int).last() == ms[i as int]);
            assert(out@ =~= canonical_content(ms.take(i + 1 as int)));
        }
        i = i + 1;
    }
    proof {
        assert(ms.take(msgs@.len() as int) =~= ms);
    }
    out
}

} // verus!
