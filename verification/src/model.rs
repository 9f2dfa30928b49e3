//! The canonical message model: the one shape that every source format is
//! normalized into, and the session metadata that travels with it.

use vstd::prelude::*;

use crate::json::{JsonNode, JsonV};

verus! {

/// Ghost image of an image-block source.
pub ghost struct ImageSourceV {
    pub source_type: Seq<char>,
    pub media_type: Seq<char>,
    pub data: Seq<char>,
}

/// Where an image block's bytes come from.
pub struct ImageSource {
    pub source_type: String,
    pub media_type: String,
    pub data: String,
}

impl View for ImageSource {
    type V = ImageSourceV;

    open spec fn view(&self) -> ImageSourceV {
        ImageSourceV {
            source_type: self.source_type@,
            media_type: self.media_type@,
            data: self.data@,
        }
    }
}

/// Ghost image of a content block.
pub ghost enum BlockV {
    Text { text: Seq<char> },
    Thinking { thinking: Seq<char> },
    ToolUse { id: Seq<char>, name: Seq<char>, input: JsonV },
    ToolResult { tool_use_id: Seq<char>, content: JsonV, is_error: Option<bool> },
    Image { source: Option<ImageSourceV> },
}

/// One content block of a canonical message. Tool arguments and results
/// are opaque structured values and stay JSON trees.
pub enum ContentBlock {
    Text { text: String },
    Thinking { thinking: String },
    ToolUse { id: String, name: String, input: JsonNode },
    ToolResult { tool_use_id: String, content: JsonNode, is_error: Option<bool> },
    Image { source: Option<ImageSource> },
}

impl View for ContentBlock {
    type V = BlockV;

    open spec fn view(&self) -> BlockV {
        match self {
            ContentBlock::Text { text } => BlockV::Text { text: text@ },
            ContentBlock::Thinking { thinking } => BlockV::Thinking { thinking: thinking@ },
            ContentBlock::ToolUse { id, name, input } => BlockV::ToolUse {
                id: id@,
                name: name@,
                input: input@,
            },
            ContentBlock::ToolResult { tool_use_id, content, is_error } => BlockV::ToolResult {
                tool_use_id: tool_use_id@,
                content: content@,
                is_error: *is_error,
            },
            ContentBlock::Image { source } => BlockV::Image {
                source: match source {
                    Some(s) => Some(s@),
                    None => None,
                },
            },
        }
    }
}

/// Ghost image of a canonical message.
pub ghost struct MsgV {
    pub uuid: Seq<char>,
    pub role: Seq<char>,
    pub timestamp: Seq<char>,
    pub content: Seq<BlockV>,
    pub source_file: Option<Seq<char>>,
}

/// One canonical message: a turn or tool event, source-agnostic.
pub struct NormalizedMessage {
    pub uuid: String,
    pub role: String,
    pub timestamp: String,
    pub content: Vec<ContentBlock>,
    pub source_file: Option<String>,
}

impl View for NormalizedMessage {
    type V = MsgV;

    open spec fn view(&self) -> MsgV {
        MsgV {
            uuid: self.uuid@,
            role: self.role@,
            timestamp: self.timestamp@,
            content: self.content@.map_values(|b: ContentBlock| b@),
            source_file: match &self.source_file {
                Some(s) => Some(s@),
                None => None,
            },
        }
    }
}

/// The images of a message list.
pub open spec fn msgs_view(s: Seq<NormalizedMessage>) -> Seq<MsgV> {
    s.map_values(|m: NormalizedMessage| m@)
}

/// The images of a fact list.
pub open spec fn facts_view(s: Seq<ExtractedFact>) -> Seq<FactV> {
    s.map_values(|f: ExtractedFact| f@)
}

/// The images of a block list.
pub open spec fn blocks_view(s: Seq<ContentBlock>) -> Seq<BlockV> {
    s.map_values(|b: ContentBlock| b@)
}

/// Ghost image of session metadata.
pub ghost struct MetaV {
    pub id: Seq<char>,
    pub project: Seq<char>,
    pub title: Option<Seq<char>>,
    pub created_at: Seq<char>,
    pub updated_at: Seq<char>,
    pub message_count: int,
    pub last_memory_uuid: Option<Seq<char>>,
    pub source: Seq<char>,
}

/// Metadata about one canonical session.
pub struct SessionMeta {
    pub id: String,
    pub project: String,
    pub title: Option<String>,
    pub created_at: String,
    pub updated_at: String,
    pub message_count: usize,
    pub last_memory_uuid: Option<String>,
    pub source: String,
}

impl View for SessionMeta {
    type V = MetaV;

    open spec fn view(&self) -> MetaV {
        MetaV {
            id: self.id@,
            project: self.project@,
            title: match &self.title {
                Some(t) => Some(t@),
                None => None,
            },
            created_at: self.created_at@,
            updated_at: self.updated_at@,
            message_count: self.message_count as int,
            last_memory_uuid: match &self.last_memory_uuid {
                Some(u) => Some(u@),
                None => None,
            },
            source: self.source@,
        }
    }
}

/// The source tag a session carries when none is stated.
pub fn default_source() -> (s: String)
    ensures
        s@ == "primary"@,
{
    let s: String = String::from_str("primary");
    s
}

/// Ghost image of a whole normalized session.
pub ghost struct SessionV {
    pub meta: MetaV,
    pub messages: Seq<MsgV>,
    pub normalized_path: Seq<char>,
}

/// A complete normalized session: metadata, ordered messages, and the path
/// of its canonical file.
pub struct NormalizedSession {
    pub meta: SessionMeta,
    pub messages: Vec<NormalizedMessage>,
    pub normalized_path: String,
}

impl View for NormalizedSession {
    type V = SessionV;

    open spec fn view(&self) -> SessionV {
        SessionV {
            meta: self.meta@,
            messages: msgs_view(self.messages@),
            normalized_path: self.normalized_path@,
        }
    }
}

/// A fact extracted from a session by a downstream consumer.
pub struct ExtractedFact {
    pub date: String,
    pub session: String,
    pub msg: String,
    pub fact: String,
    pub action: String,
    pub old: Option<String>,
}

/// Why a session could not be normalized.
#[derive(PartialEq, Eq, Structural, Clone, Copy, Debug)]
pub enum ParseError {
    /// The raw file's name does not carry a session id.
    InvalidFilename,
    /// The parse yielded no messages; an empty session is not persisted.
    EmptySession,
}

impl ParseError {
    /// A short description, for callers that log or display errors.
    pub fn message(&self) -> (r: &'static str)
        ensures
            self is InvalidFilename ==> r@ == "invalid session filename"@,
            self is EmptySession ==> r@ == "session has no messages"@,
    {
        match self {
            ParseError::InvalidFilename => "invalid session filename",
            ParseError::EmptySession => "session has no messages",
        }
    }
}

/// Events broadcast when sessions change.
pub enum SessionEvent {
    Updated { session_id: String, new_messages: Vec<NormalizedMessage> },
    TitleUpdated { session_id: String, title: String },
    MemoryExtracted { session_id: String, facts: Vec<ExtractedFact> },
}


/// Ghost image of an extracted fact.
pub ghost struct FactV {
    pub date: Seq<char>,
    pub session: Seq<char>,
    pub msg: Seq<char>,
    pub fact: Seq<char>,
    pub action: Seq<char>,
    pub old: Option<Seq<char>>,
}

impl View for ExtractedFact {
    type V = FactV;

    open spec fn view(&self) -> FactV {
        FactV {
            date: self.date@,
            session: self.session@,
            msg: self.msg@,
            fact: self.fact@,
            action: self.action@,
            old: match &self.old {
                Some(o) => Some(o@),
                None => None,
            },
        }
    }
}

/// Ghost image of a session event.
pub ghost enum EventV {
    Updated { session_id: Seq<char>, new_messages: Seq<MsgV> },
    TitleUpdated { session_id: Seq<char>, title: Seq<char> },
    MemoryExtracted { session_id: Seq<char>, facts: Seq<FactV> },
}

impl View for SessionEvent {
    type V = EventV;

    open spec fn view(&self) -> EventV {
        match self {
            SessionEvent::Updated { session_id, new_messages } => EventV::Updated {
                session_id: session_id@,
                new_messages: msgs_view(new_messages@),
            },
            SessionEvent::TitleUpdated { session_id, title } => EventV::TitleUpdated {
                session_id: session_id@,
                title: title@,
            },
            SessionEvent::MemoryExtracted { session_id, facts } => EventV::MemoryExtracted {
                session_id: session_id@,
                facts: facts@.map_values(|f: ExtractedFact| f@),
            },
        }
    }
}

/// Deep copy of one content block; the copy has the same image.
pub fn clone_block(b: &ContentBlock) -> (r: ContentBlock)
    ensures
        r@ == b@,
{
    match b {
        ContentBlock::Text { text } => ContentBlock::Text { text: text.clone() },
        ContentBlock::Thinking { thinking } => ContentBlock::Thinking {
            thinking: thinking.clone(),
        },
        ContentBlock::ToolUse { id, name, input } => ContentBlock::ToolUse {
            id: id.clone(),
            name: name.clone(),
            input: crate::json::clone_json(input),
        },
        ContentBlock::ToolResult { tool_use_id, content, is_error } => ContentBlock::ToolResult {
            tool_use_id: tool_use_id.clone(),
            content: crate::json::clone_json(content),
            is_error: *is_error,
        },
        ContentBlock::Image { source } => ContentBlock::Image {
            source: match source {
                Some(s) => Some(
                    ImageSource {
                        source_type: s.source_type.clone(),
                        media_type: s.media_type.clone(),
                        data: s.data.clone(),
                    },
                ),
                None => None,
            },
        },
    }
}

/// Deep copy of one message; the copy has the same image.
pub fn clone_message(m: &NormalizedMessage) -> (r: NormalizedMessage)
    ensures
        r@ == m@,
{
    let mut content: Vec<ContentBlock> = Vec::new();
    let ghost bs = m@.content;
    let mut i: usize = 0;
    proof {
        assert(content@.map_values(|b: ContentBlock| b@) =~= bs.take(0));
    }
    while i < m.content.len()
        invariant
            i <= m.content@.len(),
            bs == m@.content,
            bs.len() == m.content@.len(),
            content@.map_values(|b: ContentBlock| b@) == bs.take(i as int),
        decreases m.content@.len() - i,
    {
        proof {
            assert(bs[i as int] == m.content@[i as int]@);
        }
        let c = clone_block(&m.content[i]);
        let ghost cg = c;
        let ghost prev = content@;
        content.push(c);
        proof {
            assert(content@ == prev.push(cg));
            assert forall|t: int| 0 <= t < content@.len() implies #[trigger] blocks_view(
                content@,
            )[t] == blocks_view(prev).push(cg@)[t] by {
                if t < prev.len() {
                    assert(content@[t] == prev[t]);
                } else {
                    assert(content@[t] == cg);
                }
            }
            assert(blocks_view(content@) =~= blocks_view(prev).push(cg@));
            assert(cg@ == bs[i as int]);
            assert(blocks_view(prev) == bs.take(i as int));
            assert(blocks_view(content@) =~= bs.take(i + 1 as int));
        }
        i = i + 1;
    }
    proof {
        assert(bs.take(m.content@.len() as int) =~= bs);
    }
    let r = NormalizedMessage {
        uuid: m.uuid.clone(),
        role: m.role.clone(),
        timestamp: m.timestamp.clone(),
        content,
        source_file: match &m.source_file {
            Some(s) => Some(s.clone()),
            None => None,
        },
    };
    proof {
        assert(r@.content == m@.content);
    }
    r
}

/// Copy of session metadata; the copy has the same image.
pub fn clone_meta(m: &SessionMeta) -> (r: SessionMeta)
    ensures
        r@ == m@,
{
    SessionMeta {
        id: m.id.clone(),
        project: m.project.clone(),
        title: match &m.title {
            Some(t) => Some(t.clone()),
            None => None,
        },
        created_at: m.created_at.clone(),
        updated_at: m.updated_at.clone(),
        message_count: m.message_count,
        last_memory_uuid: match &m.last_memory_uuid {
            Some(u) => Some(u.clone()),
            None => None,
        },
        source: m.source.clone(),
    }
}

/// Deep copy of a message list; the copy has the same images.
pub fn clone_messages(ms: &Vec<NormalizedMessage>) -> (r: Vec<NormalizedMessage>)
    ensures
        msgs_view(r@) == msgs_view(ms@),
{
    let mut out: Vec<NormalizedMessage> = Vec::new();
    let mut i: usize = 0;
    proof {
        assert(msgs_view(out@) =~= msgs_view(ms@).take(0));
    }
    while i < ms.len()
        invariant
            i <= ms@.len(),
            msgs_view(out@) == msgs_view(ms@).take(i as int),
        decreases ms@.len() - i,
    {
        let c = clone_message(&ms[i]);
        let ghost cg = c;
        let ghost prev = out@;
        out.push(c);
        proof {
            assert(out@ == prev.push(cg));
            assert(msgs_view(ms@).len() == ms@.len());
            assert forall|t: int| 0 <= t < out@.len() implies #[trigger] msgs_view(out@)[t]
                == msgs_view(prev).push(cg@)[t] by {
                if t < prev.len() {
                    assert(out@[t] == prev[t]);
                } else {
                    assert(out@[t] == cg);
                }
            }
            assert(msgs_view(out@) =~= msgs_view(prev).push(cg@));
            assert(cg@ == ms@[i as int]@);
            assert(msgs_view(ms@)[i as int] == ms@[i as int]@);
            assert(msgs_view(out@) =~= msgs_view(ms@).take(i + 1 as int));
        }
        i = i + 1;
    }
    proof {
        assert(msgs_view(ms@).take(ms@.len() as int) =~= msgs_view(ms@));
    }
    out
}

/// Deep copy of a whole session; the copy has the same image.
pub fn clone_session(s: &NormalizedSession) -> (r: NormalizedSession)
    ensures
        r@ == s@,
{
    let r = NormalizedSession {
        meta: clone_meta(&s.meta),
        messages: clone_messages(&s.messages),
        normalized_path: s.normalized_path.clone(),
    };
    r
}

} // verus!
