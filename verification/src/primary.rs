//! The main-file-plus-side-files format: user and assistant records with
//! per-record ids, merged last-write-wins by id across the main transcript
//! and its subagent side files. Records flagged as sidechain, compaction
//! summary or internal-only are excluded, and an assistant reply whose
//! parent was excluded is excluded too (chain propagation).

use vstd::prelude::*;

use crate::codex::str_or;
use crate::json::{
    clone_json, get_bool, get_str, json_of, jv_field, jv_field_bool, jv_field_str,
    obj_get, parse_json_line, JsonNode, JsonV, nodes_view,
};
use crate::model::{msgs_view, BlockV, ContentBlock, ImageSource, MsgV, NormalizedMessage};
use crate::order::{upsert_msg, upsert_message};
use crate::text::str_eq;

verus! {

/// The set of texts a list of strings holds.
pub open spec fn set_of(s: Seq<String>) -> Set<Seq<char>>
    decreases s.len(),
{
    if s.len() == 0 {
        Set::empty()
    } else {
        set_of(s.drop_last()).insert(s.last()@)
    }
}

/// Membership in `set_of` is membership in the list.
pub proof fn lemma_set_of_contains(s: Seq<String>, x: Seq<char>)
    ensures
        set_of(s).contains(x) <==> exists|i: int| 0 <= i < s.len() && s[i]@ == x,
    decreases s.len(),
{
    if s.len() > 0 {
        lemma_set_of_contains(s.drop_last(), x);
        if set_of(s).contains(x) {
            if s.last()@ == x {
                assert(s[s.len() - 1]@ == x);
            } else {
                let i = choose|i: int| 0 <= i < s.len() - 1 && s.drop_last()[i]@ == x;
                assert(s[i]@ == x);
            }
        }
        if exists|i: int| 0 <= i < s.len() && s[i]@ == x {
            let i = choose|i: int| 0 <= i < s.len() && s[i]@ == x;
            if i < s.len() - 1 {
                assert(s.drop_last()[i]@ == x);
            }
        }
    }
}

/// Is `x` one of the texts of `v`?
pub fn list_contains_pub(v: &Vec<String>, x: &str) -> (r: bool)
    ensures
        r == set_of(v@).contains(x@),
{
    let mut i: usize = 0;
    proof {
        lemma_set_of_contains(v@, x@);
    }
    loop
        invariant
            i <= v@.len(),
            forall|k: int| 0 <= k < i ==> v@[k]@ != x@,
        ensures
            (i < v@.len() && v@[i as int]@ == x@) || (i == v@.len() && forall|k: int|
                0 <= k < i ==> v@[k]@ != x@),
        decreases v@.len() - i,
    {
        if i >= v.len() {
            break ;
        }
        if str_eq(v[i].as_str(), x) {
            break ;
        }
        i = i + 1;
    }
    proof {
        lemma_set_of_contains(v@, x@);
    }
    i < v.len()
}

/// One block of a record's content array, if the item carries one.
pub open spec fn primary_block_of(item: JsonV) -> Option<BlockV> {
    match jv_field_str(item, "type"@) {
        Some(t) => if t == "text"@ {
            match jv_field_str(item, "text"@) {
                Some(tx) => if tx.len() > 0 {
                    Some(BlockV::Text { text: tx })
                } else {
                    None
                },
                None => None,
            }
        } else if t == "thinking"@ {
            match jv_field_str(item, "thinking"@) {
                Some(tx) => if tx.len() > 0 {
                    Some(BlockV::Thinking { thinking: tx })
                } else {
                    None
                },
                None => None,
            }
        } else if t == "tool_use"@ {
            match (jv_field_str(item, "id"@), jv_field_str(item, "name"@)) {
                (Some(id), Some(name)) => Some(
                    BlockV::ToolUse {
                        id: id,
                        name: name,
                        input: match jv_field(item, "input"@) {
                            Some(v) => v,
                            None => JsonV::Null,
                        },
                    },
                ),
                _ => None,
            }
        } else if t == "tool_result"@ {
            match jv_field_str(item, "tool_use_id"@) {
                Some(tid) => Some(
                    BlockV::ToolResult {
                        tool_use_id: tid,
                        content: match jv_field(item, "content"@) {
                            Some(v) => v,
                            None => JsonV::Null,
                        },
                        is_error: jv_field_bool(item, "is_error"@),
                    },
                ),
                None => None,
            }
        } else if t == "image"@ {
            Some(
                BlockV::Image {
                    source: match jv_field(item, "source"@) {
                        Some(src) => match (jv_field_str(src, "type"@), jv_field_str(
                            src,
                            "media_type"@,
                        ), jv_field_str(src, "data"@)) {
                            (Some(st), Some(mt), Some(d)) => Some(
                                crate::model::ImageSourceV {
                                    source_type: st,
                                    media_type: mt,
                                    data: d,
                                },
                            ),
                            _ => None,
                        },
                        None => None,
                    },
                },
            )
        } else {
            None
        },
        None => None,
    }
}

/// The blocks of a content array.
pub open spec fn primary_items(items: Seq<JsonV>) -> Seq<BlockV>
    decreases items.len(),
{
    if items.len() == 0 {
        Seq::empty()
    } else {
        primary_items(items.drop_last()) + (match primary_block_of(items.last()) {
            Some(b) => seq![b],
            None => Seq::<BlockV>::empty(),
        })
    }
}

/// The blocks of a record: its message's content read as an array or as one
/// bare string.
pub open spec fn primary_blocks(j: JsonV) -> Seq<BlockV> {
    match jv_field(j, "message"@) {
        Some(m) => match jv_field(m, "content"@) {
            Some(JsonV::Arr(items)) => primary_items(items),
            Some(JsonV::Str(s)) => if s.len() == 0 {
                Seq::empty()
            } else {
                seq![BlockV::Text { text: s }]
            },
            _ => Seq::empty(),
        },
        None => Seq::empty(),
    }
}

/// Extract the blocks of one record.
fn primary_blocks_exec(j: &JsonNode) -> (r: Vec<ContentBlock>)
    ensures
        r@.map_values(|b: ContentBlock| b@) == primary_blocks(j@),
{
    let mut out: Vec<ContentBlock> = Vec::new();
    let m = match obj_get(j, "message") {
        Some(m) => m,
        None => {
            proof {
                assert(out@.map_values(|b: ContentBlock| b@) =~= primary_blocks(j@));
            }
            return out;
        },
    };
    let content = match obj_get(m, "content") {
        Some(c) => c,
        None => {
            proof {
                assert(out@.map_values(|b: ContentBlock| b@) =~= primary_blocks(j@));
            }
            return out;
        },
    };
    match content {
        JsonNode::Str(s) => {
            if !s.as_str().is_empty() {
                out.push(ContentBlock::Text { text: s.clone() });
            }
            proof {
                assert(out@.map_values(|b: ContentBlock| b@) =~= primary_blocks(j@));
            }
            out
        },
        JsonNode::Arr(items) => {
            let ghost vs = nodes_view(items@);
            proof {
                assert(content@ == JsonV::Arr(vs));
            }
            let mut i: usize = 0;
            proof {
                assert(vs.take(0) =~= Seq::<JsonV>::empty());
                assert(out@.map_values(|b: ContentBlock| b@) =~= primary_items(vs.take(0)));
            }
            while i < items.len()
                invariant
                    i <= items@.len(),
                    vs == nodes_view(items@),
                    vs.len() == items@.len(),
                    primary_blocks(j@) == primary_items(vs),
                    out@.map_values(|b: ContentBlock| b@) == primary_items(vs.take(i as int)),
                decreases items@.len() - i,
            {
                let item = &items[i];
                proof {
                    assert(item@ == vs[i as int]);
                }
                match get_str(item, "type") {
                    Some(t) => {
                        if str_eq(t.as_str(), "text") {
                            match get_str(item, "text") {
                                Some(tx) => {
                                    if !tx.as_str().is_empty() {
                                        out.push(ContentBlock::Text { text: tx.clone() });
                                    }
                                },
                                None => {},
                            }
                        } else if str_eq(t.as_str(), "thinking") {
                            match get_str(item, "thinking") {
                                Some(tx) => {
                                    if !tx.as_str().is_empty() {
                                        out.push(ContentBlock::Thinking { thinking: tx.clone() });
                                    }
                                },
                                None => {},
                            }
                        } else if str_eq(t.as_str(), "tool_use") {
                            let ido = match get_str(item, "id") {
                                Some(s) => Some(s.clone()),
                                None => None,
                            };
                            let nameo = match get_str(item, "name") {
                                Some(s) => Some(s.clone()),
                                None => None,
                            };
                            match (ido, nameo) {
                                (Some(id), Some(name)) => {
                                    let input = match obj_get(item, "input") {
                                        Some(v) => clone_json(v),
                                        None => JsonNode::Null,
                                    };
                                    out.push(ContentBlock::ToolUse { id, name, input });
                                },
                                _ => {},
                            }
                        } else if str_eq(t.as_str(), "tool_result") {
                            match get_str(item, "tool_use_id") {
                                Some(tid) => {
                                    let tid = tid.clone();
                                    let content_val = match obj_get(item, "content") {
                                        Some(v) => clone_json(v),
                                        None => JsonNode::Null,
                                    };
                                    let is_error = get_bool(item, "is_error");
                                    out.push(
                                        ContentBlock::ToolResult {
                                            tool_use_id: tid,
                                            content: content_val,
                                            is_error,
                                        },
                                    );
                                },
                                None => {},
                            }
                        } else if str_eq(t.as_str(), "image") {
                            let source: Option<ImageSource> = match obj_get(item, "source") {
                                Some(src) => {
                                    let sto = match get_str(src, "type") {
                                        Some(s) => Some(s.clone()),
                                        None => None,
                                    };
                                    let mto = match get_str(src, "media_type") {
                                        Some(s) => Some(s.clone()),
                                        None => None,
                                    };
                                    let dto = match get_str(src, "data") {
                                        Some(s) => Some(s.clone()),
                                        None => None,
                                    };
                                    match (sto, mto, dto) {
                                        (Some(st), Some(mt), Some(d)) => Some(
                                            ImageSource {
                                                source_type: st,
                                                media_type: mt,
                                                data: d,
                                            },
                                        ),
                                        _ => None,
                                    }
                                },
                                None => None,
                            };
                            out.push(ContentBlock::Image { source });
                        }
                    },
                    None => {},
                }
                proof {
                    assert(vs.take(i + 1 as int).drop_last() =~= vs.take(i as int));
                    assert(vs.take(i + 1 as int).last() == vs[i as int]);
                    assert(out@.map_values(|b: ContentBlock| b@) =~= primary_items(
                        vs.take(i + 1 as int),
                    ));
                }
                i = i + 1;
            }
            proof {
                assert(vs.take(items@.len() as int) =~= vs);
            }
            out
        },
        _ => {
            proof {
                assert(out@.map_values(|b: ContentBlock| b@) =~= primary_blocks(j@));
            }
            out
        },
    }
}

/// Ghost state of the fold over one raw file.
pub ghost struct PrimaryStV {
    pub msgs: Seq<MsgV>,
    pub title: Option<Seq<char>>,
    pub skips: Set<Seq<char>>,
}

/// What one raw line does to the state: summary records set the title;
/// flagged records and assistant replies to excluded records join the skip
/// set; everything else with an id and content joins the messages,
/// last write winning by id.
pub open spec fn primary_step(st: PrimaryStV, line: Seq<char>, filename: Seq<char>) -> PrimaryStV {
    if line.len() == 0 {
        st
    } else {
        match json_of(line) {
            None => st,
            Some(j) => {
                let rt = str_or(j, "type"@, Seq::empty());
                if rt != "user"@ && rt != "assistant"@ {
                    if rt == "summary"@ {
                        match jv_field_str(j, "summary"@) {
                            Some(s) => PrimaryStV { msgs: st.msgs, title: Some(s), skips: st.skips },
                            None => st,
                        }
                    } else {
                        st
                    }
                } else {
                    match jv_field_str(j, "uuid"@) {
                        None => st,
                        Some(uuid) => {
                            if jv_field_bool(j, "isSidechain"@) == Some(true) || jv_field_bool(
                                j,
                                "isCompactSummary"@,
                            ) == Some(true) || jv_field_bool(j, "isVisibleInTranscriptOnly"@)
                                == Some(true) {
                                PrimaryStV {
                                    msgs: st.msgs,
                                    title: st.title,
                                    skips: st.skips.insert(uuid),
                                }
                            } else if rt == "assistant"@ && (match jv_field_str(j, "parentUuid"@) {
                                Some(parent) => st.skips.contains(parent),
                                None => false,
                            }) {
                                PrimaryStV {
                                    msgs: st.msgs,
                                    title: st.title,
                                    skips: st.skips.insert(uuid),
                                }
                            } else {
                                let content = primary_blocks(j);
                                if content.len() == 0 {
                                    st
                                } else {
                                    let role = match jv_field(j, "message"@) {
                                        Some(m) => str_or(m, "role"@, rt),
                                        None => rt,
                                    };
                                    let m = MsgV {
                                        uuid: uuid,
                                        role: role,
                                        timestamp: str_or(j, "timestamp"@, Seq::empty()),
                                        content: content,
                                        source_file: Some(filename),
                                    };
                                    PrimaryStV {
                                        msgs: upsert_msg(st.msgs, m),
                                        title: st.title,
                                        skips: st.skips,
                                    }
                                }
                            }
                        },
                    }
                }
            },
        }
    }
}

/// The fold over one raw file's lines, in order. The skip set starts fresh
/// for each file; messages and title accumulate across files.
pub open spec fn primary_fold(
    st: PrimaryStV,
    lines: Seq<Seq<char>>,
    filename: Seq<char>,
) -> PrimaryStV
    decreases lines.len(),
{
    if lines.len() == 0 {
        st
    } else {
        primary_step(primary_fold(st, lines.drop_last(), filename), lines.last(), filename)
    }
}

/// Apply one raw line to the running parse state.
fn primary_apply_line(
    msgs: &mut Vec<NormalizedMessage>,
    title: &mut Option<String>,
    skips: &mut Vec<String>,
    line: &str,
    filename: &str,
)
    ensures
        ({
            let st0 = PrimaryStV {
                msgs: msgs_view(old(msgs)@),
                title: match *old(title) {
                    Some(t) => Some(t@),
                    None => None,
                },
                skips: set_of(old(skips)@),
            };
            let st1 = primary_step(st0, line@, filename@);
            msgs_view(final(msgs)@) == st1.msgs && (match *final(title) {
                Some(t) => Some(t@),
                None => None::<Seq<char>>,
            }) == st1.title && set_of(final(skips)@) == st1.skips
        }),
{
    if line.is_empty() {
        return ;
    }
    let j = match parse_json_line(line) {
        Some(j) => j,
        None => {
            return ;
        },
    };
    let rt: String = match get_str(&j, "type") {
        Some(t) => t.clone(),
        None => String::new(),
    };
    let is_user = str_eq(rt.as_str(), "user");
    let is_assistant = str_eq(rt.as_str(), "assistant");
    if !is_user && !is_assistant {
        if str_eq(rt.as_str(), "summary") {
            match get_str(&j, "summary") {
                Some(s) => {
                    *title = Some(s.clone());
                },
                None => {},
            }
        }
        return ;
    }
    let uuid: String = match get_str(&j, "uuid") {
        Some(u) => u.clone(),
        None => {
            return ;
        },
    };
    let flagged: bool = (match get_bool(&j, "isSidechain") {
        Some(b) => b,
        None => false,
    }) || (match get_bool(&j, "isCompactSummary") {
        Some(b) => b,
        None => false,
    }) || (match get_bool(&j, "isVisibleInTranscriptOnly") {
        Some(b) => b,
        None => false,
    });
    if flagged {
        let ghost prev = skips@;
        let ghost ug = uuid;
        skips.push(uuid);
        proof {
            assert(skips@ == prev.push(ug));
            assert(skips@.drop_last() =~= prev);
            assert(set_of(skips@) == set_of(prev).insert(ug@));
        }
        return ;
    }
    if is_assistant {
        let parent_skipped: bool = match get_str(&j, "parentUuid") {
            Some(p) => list_contains_pub(skips, p.as_str()),
            None => false,
        };
        if parent_skipped {
            let ghost prev = skips@;
            let ghost ug = uuid;
            skips.push(uuid);
            proof {
                assert(skips@ == prev.push(ug));
                assert(skips@.drop_last() =~= prev);
                assert(set_of(skips@) == set_of(prev).insert(ug@));
            }
            return ;
        }
    }
    let content = primary_blocks_exec(&j);
    if content.len() == 0 {
        return ;
    }
    let role: String = match obj_get(&j, "message") {
        Some(m) => match get_str(m, "role") {
            Some(r) => r.clone(),
            None => rt,
        },
        None => rt,
    };
    let ts: String = match get_str(&j, "timestamp") {
        Some(t) => t.clone(),
        None => String::new(),
    };
    let m = NormalizedMessage {
        uuid,
        role,
        timestamp: ts,
        content,
        source_file: Some(filename.to_owned()),
    };
    upsert_message(msgs, m);
}

/// Fold a whole raw file into the running message map and title. The skip
/// set is fresh per file, as exclusion chains do not cross files.
pub fn parse_jsonl_file(
    msgs: &mut Vec<NormalizedMessage>,
    title: &mut Option<String>,
    lines: &Vec<String>,
    filename: &str,
)
    ensures
        ({
            let st0 = PrimaryStV {
                msgs: msgs_view(old(msgs)@),
                title: match *old(title) {
                    Some(t) => Some(t@),
                    None => None,
                },
                skips: Set::empty(),
            };
            let st1 = primary_fold(st0, crate::text::strs_view(lines@), filename@);
            msgs_view(final(msgs)@) == st1.msgs && (match *final(title) {
                Some(t) => Some(t@),
                None => None::<Seq<char>>,
            }) == st1.title
        }),
{
    let ghost lviews = crate::text::strs_view(lines@);
    let ghost st0 = PrimaryStV {
        msgs: msgs_view(msgs@),
        title: match title {
            Some(t) => Some(t@),
            None => None,
        },
        skips: Set::empty(),
    };
    let mut skips: Vec<String> = Vec::new();
    let mut i: usize = 0;
    proof {
        assert(lviews.take(0) =~= Seq::<Seq<char>>::empty());
        assert(set_of(skips@) =~= Set::<Seq<char>>::empty());
    }
    while i < lines.len()
        invariant
            i <= lines@.len(),
            lviews == crate::text::strs_view(lines@),
            lviews.len() == lines@.len(),
            ({
                let st = primary_fold(st0, lviews.take(i as int), filename@);
                msgs_view(msgs@) == st.msgs && (match title {
                    Some(ref t) => Some(t@),
                    None => None::<Seq<char>>,
                }) == st.title && set_of(skips@) == st.skips
            }),
        decreases lines@.len() - i,
    {
        primary_apply_line(msgs, title, &mut skips, lines[i].as_str(), filename);
        proof {
            assert(lviews.take(i + 1 as int).drop_last() =~= lviews.take(i as int));
            assert(lviews.take(i + 1 as int).last() == lviews[i as int]);
            assert(lines@[i as int]@ == lviews[i as int]);
        }
        i = i + 1;
    }
    proof {
        assert(lviews.take(lines@.len() as int) =~= lviews);
    }
}


/// A record flagged sidechain, compaction-summary or internal-only adds no
/// message; its id joins the exclusion set.
pub proof fn lemma_flagged_excluded(st: PrimaryStV, line: Seq<char>, filename: Seq<char>)
    requires
        line.len() > 0,
        json_of(line) is Some,
        ({
            let j = json_of(line)->0;
            let rt = str_or(j, "type"@, Seq::empty());
            &&& (rt == "user"@ || rt == "assistant"@)
            &&& jv_field_str(j, "uuid"@) is Some
            &&& (jv_field_bool(j, "isSidechain"@) == Some(true) || jv_field_bool(
                j,
                "isCompactSummary"@,
            ) == Some(true) || jv_field_bool(j, "isVisibleInTranscriptOnly"@) == Some(true))
        }),
    ensures
        primary_step(st, line, filename).msgs == st.msgs,
        primary_step(st, line, filename).skips == st.skips.insert(
            jv_field_str(json_of(line)->0, "uuid"@)->0,
        ),
{
}

/// Chain propagation: an assistant reply whose parent is excluded adds no
/// message, and its own id joins the exclusion set — so its replies are
/// excluded in turn.
pub proof fn lemma_chain_propagation(st: PrimaryStV, line: Seq<char>, filename: Seq<char>)
    requires
        line.len() > 0,
        json_of(line) is Some,
        ({
            let j = json_of(line)->0;
            &&& str_or(j, "type"@, Seq::empty()) == "assistant"@
            &&& jv_field_str(j, "uuid"@) is Some
            &&& jv_field_bool(j, "isSidechain"@) != Some(true)
            &&& jv_field_bool(j, "isCompactSummary"@) != Some(true)
            &&& jv_field_bool(j, "isVisibleInTranscriptOnly"@) != Some(true)
            &&& jv_field_str(j, "parentUuid"@) is Some
            &&& st.skips.contains(jv_field_str(j, "parentUuid"@)->0)
        }),
    ensures
        primary_step(st, line, filename).msgs == st.msgs,
        primary_step(st, line, filename).skips == st.skips.insert(
            jv_field_str(json_of(line)->0, "uuid"@)->0,
        ),
{
}

/// An unrelated reply is retained: an assistant record that is not flagged,
/// whose parent is not excluded, and that has content, becomes a message.
pub proof fn lemma_sibling_retained(st: PrimaryStV, line: Seq<char>, filename: Seq<char>)
    requires
        line.len() > 0,
        json_of(line) is Some,
        ({
            let j = json_of(line)->0;
            &&& str_or(j, "type"@, Seq::empty()) == "assistant"@
            &&& jv_field_str(j, "uuid"@) is Some
            &&& jv_field_bool(j, "isSidechain"@) != Some(true)
            &&& jv_field_bool(j, "isCompactSummary"@) != Some(true)
            &&& jv_field_bool(j, "isVisibleInTranscriptOnly"@) != Some(true)
            &&& (jv_field_str(j, "parentUuid"@) matches Some(p) ==> !st.skips.contains(p))
            &&& primary_blocks(j).len() > 0
        }),
    ensures
        ({
            let j = json_of(line)->0;
            let m = MsgV {
                uuid: jv_field_str(j, "uuid"@)->0,
                role: match jv_field(j, "message"@) {
                    Some(mm) => str_or(mm, "role"@, "assistant"@),
                    None => "assistant"@,
                },
                timestamp: str_or(j, "timestamp"@, Seq::empty()),
                content: primary_blocks(j),
                source_file: Some(filename),
            };
            primary_step(st, line, filename).msgs == upsert_msg(st.msgs, m)
        }),
        primary_step(st, line, filename).skips == st.skips,
{
}

} // verus!
