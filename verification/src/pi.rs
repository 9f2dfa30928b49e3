//! The tree-structured format: a header record, then entries linked by
//! parent id into a tree whose branches are conversation forks. Only the
//! branch reachable from the last entry written is normalized; abandoned
//! forks never appear. Tool names and argument field names use a different
//! vocabulary than the canonical model and are remapped.

use vstd::prelude::*;

use crate::json::{
    get_str, json_of, jv_field, jv_field_bool, jv_field_str, obj_get, parse_json_line,
    JsonNode, JsonV, nodes_view, clone_json,
};
use crate::model::{
    msgs_view, BlockV, ContentBlock, ImageSource, MsgV, NormalizedMessage,
};
use crate::order::{sort_by_ts, sort_messages};
use crate::text::{dec_text, exact_int, int_read_cap, parse_exact_i64, push_char, str_eq};
use crate::timefmt::{timestamp_of, timestamp_string};

verus! {

/// Ghost image of the tree-format header metadata.
pub ghost struct PiMetaV {
    pub id: Seq<char>,
    pub cwd: Seq<char>,
    pub timestamp: Seq<char>,
}

/// Metadata taken from the session header record.
pub struct PiSessionMeta {
    pub id: String,
    pub cwd: String,
    pub timestamp: String,
}

impl View for PiSessionMeta {
    type V = PiMetaV;

    open spec fn view(&self) -> PiMetaV {
        PiMetaV { id: self.id@, cwd: self.cwd@, timestamp: self.timestamp@ }
    }
}

/// The session id carried by a session directory name: the part after the
/// first underscore when there is one and it is not empty, else the whole
/// name.
pub open spec fn pi_session_id_of(dir_name: Seq<char>) -> Seq<char> {
    let i = crate::text::idx_of(dir_name, '_');
    if 0 <= i && i + 1 < dir_name.len() {
        dir_name.skip(i + 1)
    } else {
        dir_name
    }
}

/// Extract the session id from a session directory name.
pub fn extract_session_id(dir_name: &str) -> (r: Option<String>)
    ensures
        r matches Some(s) && s@ == pi_session_id_of(dir_name@),
{
    let n: usize = dir_name.unicode_len();
    let mut i: usize = 0;
    loop
        invariant
            i <= n,
            n == dir_name@.len(),
            forall|k: int| 0 <= k < i ==> dir_name@[k] != '_',
        ensures
            i <= n,
            forall|k: int| 0 <= k < i ==> dir_name@[k] != '_',
            i == n || dir_name@[i as int] == '_',
        decreases n - i,
    {
        if i >= n {
            break ;
        }
        if dir_name.get_char(i) == '_' {
            break ;
        }
        i = i + 1;
    }
    proof {
        crate::text::lemma_idx_of_exact(dir_name@, '_', i as int);
    }
    if i < n && i + 1 < n {
        let tail = dir_name.substring_char(i + 1, n);
        proof {
            assert(tail@ =~= dir_name@.skip(i + 1));
        }
        Some(tail.to_owned())
    } else {
        Some(dir_name.to_owned())
    }
}

/// One squashing pass over an encoded directory name: each "--" becomes one
/// dash, a slash becomes a dash, everything else stands.
pub open spec fn squash_dashes(s: Seq<char>) -> Seq<char>
    decreases s.len(),
{
    if s.len() == 0 {
        Seq::empty()
    } else if s.len() >= 2 && s[0] == '-' && s[1] == '-' {
        seq!['-'] + squash_dashes(s.skip(2))
    } else if s[0] == '/' {
        seq!['-'] + squash_dashes(s.skip(1))
    } else {
        seq![s[0]] + squash_dashes(s.skip(1))
    }
}

/// Leading dashes of `s`.
pub open spec fn dash_run(s: Seq<char>) -> int
    decreases s.len(),
{
    if s.len() == 0 || s[0] != '-' {
        0
    } else {
        1 + dash_run(s.drop_first())
    }
}

/// The project id denoted by an encoded working-directory name: double
/// dashes read as path separators, the path reads as a dash-joined id with
/// one leading dash.
pub open spec fn pi_project_id_of(encoded: Seq<char>) -> Seq<char> {
    let squashed = squash_dashes(encoded);
    seq!['-'] + squashed.skip(dash_run(squashed))
}

/// Derive the project id from an encoded working-directory name.
pub fn extract_project_id(encoded_cwd: &str) -> (r: String)
    ensures
        r@ == pi_project_id_of(encoded_cwd@),
{
    let n: usize = encoded_cwd.unicode_len();
    let mut sq: Vec<char> = Vec::new();
    let mut i: usize = 0;
    proof {
        assert(encoded_cwd@.skip(0) =~= encoded_cwd@);
        assert(squash_dashes(encoded_cwd@) == sq@ + squash_dashes(encoded_cwd@.skip(0)));
    }
    while i < n
        invariant
            i <= n,
            n == encoded_cwd@.len(),
            squash_dashes(encoded_cwd@) == sq@ + squash_dashes(encoded_cwd@.skip(i as int)),
        decreases n - i,
    {
        let c = encoded_cwd.get_char(i);
        let two = i + 1 < n && c == '-' && encoded_cwd.get_char(i + 1) == '-';
        let ghost tail = encoded_cwd@.skip(i as int);
        let ghost sq0 = sq@;
        if two {
            sq.push('-');
            proof {
                assert(tail[0] == '-' && tail[1] == '-');
                assert(tail.skip(2) =~= encoded_cwd@.skip(i + 2));
                assert(squash_dashes(tail) == seq!['-'] + squash_dashes(tail.skip(2)));
                assert(squash_dashes(encoded_cwd@) =~= sq@ + squash_dashes(
                    encoded_cwd@.skip(i + 2),
                ));
            }
            i = i + 2;
        } else {
            if c == '/' {
                sq.push('-');
            } else {
                sq.push(c);
            }
            proof {
                assert(tail[0] == c);
                assert(!(tail.len() >= 2 && tail[0] == '-' && tail[1] == '-'));
                assert(tail.skip(1) =~= encoded_cwd@.skip(i + 1));
                assert(squash_dashes(encoded_cwd@) =~= sq@ + squash_dashes(
                    encoded_cwd@.skip(i + 1),
                ));
            }
            i = i + 1;
        }
    }
    proof {
        assert(encoded_cwd@.skip(n as int).len() == 0);
        assert(sq@ == squash_dashes(encoded_cwd@));
    }
    let mut j: usize = 0;
    loop
        invariant
            j <= sq@.len(),
            sq@ == squash_dashes(encoded_cwd@),
            forall|k: int| 0 <= k < j ==> sq@[k] == '-',
        ensures
            j <= sq@.len(),
            sq@ == squash_dashes(encoded_cwd@),
            forall|k: int| 0 <= k < j ==> sq@[k] == '-',
            j == sq@.len() || sq@[j as int] != '-',
        decreases sq@.len() - j,
    {
        if j >= sq.len() {
            break ;
        }
        if sq[j] != '-' {
            break ;
        }
        j = j + 1;
    }
    proof {
        lemma_dash_run_exact(sq@, j as int);
    }
    let mut out = String::new();
    push_char(&mut out, '-');
    let ghost pre = out@;
    let mut k: usize = j;
    proof {
        assert(out@ =~= seq!['-']);
        assert(out@ =~= seq!['-'] + sq@.skip(j as int).take(0));
    }
    while k < sq.len()
        invariant
            j <= k <= sq@.len(),
            sq@ == squash_dashes(encoded_cwd@),
            out@ == seq!['-'] + sq@.skip(j as int).take(k - j),
        decreases sq@.len() - k,
    {
        push_char(&mut out, sq[k]);
        proof {
            assert(sq@.skip(j as int)[k - j] == sq@[k as int]);
            assert(out@ =~= seq!['-'] + sq@.skip(j as int).take(k - j + 1));
        }
        k = k + 1;
    }
    proof {
        assert(sq@.skip(j as int).take(sq@.len() - j) =~= sq@.skip(j as int));
        assert(out@ =~= pi_project_id_of(encoded_cwd@));
    }
    out
}

/// Where the dash run of `s` ends.
proof fn lemma_dash_run_exact(s: Seq<char>, k: int)
    requires
        0 <= k <= s.len(),
        forall|i: int| 0 <= i < k ==> s[i] == '-',
        k == s.len() || s[k] != '-',
    ensures
        dash_run(s) == k,
    decreases k,
{
    if k > 0 {
        assert(s[0] == '-');
        assert(forall|i: int| 0 <= i < k - 1 ==> #[trigger] s.drop_first()[i] == '-');
        assert(k - 1 == s.drop_first().len() || s.drop_first()[k - 1] != '-');
        lemma_dash_run_exact(s.drop_first(), k - 1);
    }
}

/// The deterministic id of a tree entry's message.
pub open spec fn pi_uuid_of(sid: Seq<char>, entry_id: Seq<char>) -> Seq<char> {
    "pi-"@ + sid + "-"@ + entry_id
}

/// Synthesize the id of one entry's message.
fn generate_uuid(session_id: &str, entry_id: &str) -> (r: String)
    ensures
        r@ == pi_uuid_of(session_id@, entry_id@),
{
    let mut out = String::new();
    out.append("pi-");
    out.append(session_id);
    out.append("-");
    out.append(entry_id);
    proof {
        assert(out@ =~= pi_uuid_of(session_id@, entry_id@));
    }
    out
}


/// Ghost image of one raw tree entry.
pub ghost struct PiRecV {
    pub rt: Seq<char>,
    pub id: Option<Seq<char>>,
    pub parent: Option<Seq<char>>,
    pub cwd: Option<Seq<char>>,
    pub ts: Option<JsonV>,
    pub msg: Option<JsonV>,
}

/// One raw tree entry, decoded from a line.
pub struct PiRec {
    pub rt: String,
    pub id: Option<String>,
    pub parent: Option<String>,
    pub cwd: Option<String>,
    pub ts: Option<JsonNode>,
    pub msg: Option<JsonNode>,
}

impl View for PiRec {
    type V = PiRecV;

    open spec fn view(&self) -> PiRecV {
        PiRecV {
            rt: self.rt@,
            id: match &self.id {
                Some(s) => Some(s@),
                None => None,
            },
            parent: match &self.parent {
                Some(s) => Some(s@),
                None => None,
            },
            cwd: match &self.cwd {
                Some(s) => Some(s@),
                None => None,
            },
            ts: match &self.ts {
                Some(n) => Some(n@),
                None => None,
            },
            msg: match &self.msg {
                Some(n) => Some(n@),
                None => None,
            },
        }
    }
}

/// The images of a list of entries.
pub open spec fn recs_view(s: Seq<PiRec>) -> Seq<PiRecV> {
    s.map_values(|r: PiRec| r@)
}

/// Whether a field can carry an optional string: absent, null, or a string.
pub open spec fn pi_opt_str_ok(j: JsonV, key: Seq<char>) -> bool {
    match jv_field(j, key) {
        None => true,
        Some(JsonV::Null) => true,
        Some(JsonV::Str(_)) => true,
        _ => false,
    }
}

/// The optional string a field carries.
pub open spec fn pi_opt_str(j: JsonV, key: Seq<char>) -> Option<Seq<char>> {
    match jv_field(j, key) {
        Some(JsonV::Str(s)) => Some(s),
        _ => None,
    }
}

/// The optional value a field carries; an explicit null reads as absent.
pub open spec fn pi_opt_val(j: JsonV, key: Seq<char>) -> Option<JsonV> {
    match jv_field(j, key) {
        None => None,
        Some(JsonV::Null) => None,
        Some(v) => Some(v),
    }
}

/// The entry denoted by a parsed line, if the line has the entry shape:
/// a string type, and optional-string id, parent id, directory and name.
pub open spec fn pi_rec_of(j: JsonV) -> Option<PiRecV> {
    match jv_field_str(j, "type"@) {
        None => None,
        Some(rt) => if pi_opt_str_ok(j, "id"@) && pi_opt_str_ok(j, "parentId"@) && pi_opt_str_ok(
            j,
            "cwd"@,
        ) && pi_opt_str_ok(j, "name"@) {
            Some(
                PiRecV {
                    rt: rt,
                    id: pi_opt_str(j, "id"@),
                    parent: pi_opt_str(j, "parentId"@),
                    cwd: pi_opt_str(j, "cwd"@),
                    ts: pi_opt_val(j, "timestamp"@),
                    msg: pi_opt_val(j, "message"@),
                },
            )
        } else {
            None
        },
    }
}

/// The entry denoted by a raw line: empty and unparseable lines, and lines
/// of the wrong shape, denote nothing.
pub open spec fn pi_line_of(line: Seq<char>) -> Option<PiRecV> {
    if line.len() == 0 {
        None
    } else {
        match json_of(line) {
            None => None,
            Some(j) => pi_rec_of(j),
        }
    }
}

/// Read an optional-string field. The outer None says the field is there
/// but is neither a string nor null, which makes the whole line invalid.
fn opt_str_field(j: &JsonNode, key: &str) -> (r: Option<Option<String>>)
    ensures
        match r {
            Some(o) => pi_opt_str_ok(j@, key@) && (match o {
                Some(s) => pi_opt_str(j@, key@) == Some(s@),
                None => pi_opt_str(j@, key@) is None,
            }),
            None => !pi_opt_str_ok(j@, key@),
        },
{
    match obj_get(j, key) {
        None => Some(None),
        Some(node) => match node {
            JsonNode::Str(s) => Some(Some(s.clone())),
            JsonNode::Null => Some(None),
            _ => None,
        },
    }
}

/// Read an optional-value field; an explicit null reads as absent.
fn opt_val_field(j: &JsonNode, key: &str) -> (r: Option<JsonNode>)
    ensures
        match r {
            Some(n) => pi_opt_val(j@, key@) == Some(n@),
            None => pi_opt_val(j@, key@) is None,
        },
{
    match obj_get(j, key) {
        None => None,
        Some(node) => match node {
            JsonNode::Null => None,
            _ => Some(clone_json(node)),
        },
    }
}

/// Decode one raw line into an entry.
fn pi_decode_line(line: &str) -> (r: Option<PiRec>)
    ensures
        match r {
            Some(rec) => pi_line_of(line@) == Some(rec@),
            None => pi_line_of(line@) is None,
        },
{
    if line.is_empty() {
        return None;
    }
    let j = match parse_json_line(line) {
        Some(j) => j,
        None => {
            return None;
        },
    };
    let rt: String = match get_str(&j, "type") {
        Some(t) => t.clone(),
        None => {
            return None;
        },
    };
    let id = match opt_str_field(&j, "id") {
        Some(o) => o,
        None => {
            return None;
        },
    };
    let parent = match opt_str_field(&j, "parentId") {
        Some(o) => o,
        None => {
            return None;
        },
    };
    let cwd = match opt_str_field(&j, "cwd") {
        Some(o) => o,
        None => {
            return None;
        },
    };
    match opt_str_field(&j, "name") {
        Some(_) => {},
        None => {
            return None;
        },
    }
    let ts = opt_val_field(&j, "timestamp");
    let msg = opt_val_field(&j, "message");
    Some(PiRec { rt, id, parent, cwd, ts, msg })
}

/// Ghost state of the scan over the raw lines.
pub ghost struct PiScanV {
    pub header: PiMetaV,
    pub entries: Seq<PiRecV>,
    pub last: Option<Seq<char>>,
}

/// The scan's starting state.
pub open spec fn pi_scan_init() -> PiScanV {
    PiScanV {
        header: PiMetaV { id: Seq::empty(), cwd: Seq::empty(), timestamp: Seq::empty() },
        entries: Seq::empty(),
        last: None,
    }
}

/// What one raw line does to the scan state: a header record refreshes the
/// metadata; every other entry is kept, and one with an id becomes the
/// latest leaf candidate.
pub open spec fn pi_scan_step(st: PiScanV, line: Seq<char>) -> PiScanV {
    match pi_line_of(line) {
        None => st,
        Some(r) => if r.rt == "session"@ {
            PiScanV {
                header: PiMetaV {
                    id: match r.id {
                        Some(s) => s,
                        None => st.header.id,
                    },
                    cwd: match r.cwd {
                        Some(c) => c,
                        None => Seq::empty(),
                    },
                    timestamp: match r.ts {
                        Some(tv) => timestamp_of(tv),
                        None => st.header.timestamp,
                    },
                },
                entries: st.entries,
                last: st.last,
            }
        } else {
            PiScanV {
                header: st.header,
                entries: st.entries.push(r),
                last: match r.id {
                    Some(id) => Some(id),
                    None => st.last,
                },
            }
        },
    }
}

/// The scan over every raw line, in order.
pub open spec fn pi_scan(lines: Seq<Seq<char>>) -> PiScanV
    decreases lines.len(),
{
    if lines.len() == 0 {
        pi_scan_init()
    } else {
        pi_scan_step(pi_scan(lines.drop_last()), lines.last())
    }
}

/// The index of the latest entry carrying this id.
pub open spec fn find_last_id(entries: Seq<PiRecV>, id: Seq<char>) -> Option<int>
    decreases entries.len(),
{
    if entries.len() == 0 {
        None
    } else if entries.last().id == Some(id) {
        Some(entries.len() - 1)
    } else {
        find_last_id(entries.drop_last(), id)
    }
}

/// The leaf-to-root chain of entry indices, following parent ids; the fuel
/// bounds the chain, so a malformed cyclic file yields a truncated chain
/// instead of an endless walk.
pub open spec fn walk_rev(entries: Seq<PiRecV>, cur: Option<Seq<char>>, fuel: nat) -> Seq<int>
    decreases fuel,
{
    if fuel == 0 {
        Seq::empty()
    } else {
        match cur {
            None => Seq::empty(),
            Some(id) => match find_last_id(entries, id) {
                None => Seq::empty(),
                Some(idx) => seq![idx] + walk_rev(
                    entries,
                    entries[idx].parent,
                    (fuel - 1) as nat,
                ),
            },
        }
    }
}

/// The current branch, in root-to-leaf order: the reversed parent chain
/// from the latest leaf, or every entry in file order when no entry
/// carried an id.
pub open spec fn pi_branch(entries: Seq<PiRecV>, last: Option<Seq<char>>) -> Seq<int> {
    match last {
        Some(id) => walk_rev(entries, Some(id), (entries.len() + 1) as nat).reverse(),
        None => Seq::new(entries.len(), |i: int| i),
    }
}


/// Uppercase for ASCII lowercase letters; anything else stands.
pub open spec fn upper_ch(c: char) -> char {
    if 'a' <= c <= 'z' {
        (((c as u32) - 32) as u8) as char
    } else {
        c
    }
}

/// The name with its first letter uppercased (when ASCII).
pub open spec fn cap_first(s: Seq<char>) -> Seq<char> {
    if s.len() == 0 {
        s
    } else {
        seq![upper_ch(s[0])] + s.drop_first()
    }
}

/// Field renames for the read and write tools.
pub open spec fn rename_rw(k: Seq<char>) -> Seq<char> {
    if k == "path"@ {
        "file_path"@
    } else {
        k
    }
}

/// Field renames for the edit tool.
pub open spec fn rename_edit(k: Seq<char>) -> Seq<char> {
    if k == "path"@ {
        "file_path"@
    } else if k == "oldText"@ {
        "old_string"@
    } else if k == "newText"@ {
        "new_string"@
    } else {
        k
    }
}

/// The object with its keys renamed; a non-object stands as it is.
pub open spec fn remap_keys(args: JsonV, edit: bool) -> JsonV {
    match args {
        JsonV::Obj(pairs) => JsonV::Obj(
            pairs.map_values(
                |pr: (Seq<char>, JsonV)|
                    (
                        if edit {
                            rename_edit(pr.0)
                        } else {
                            rename_rw(pr.0)
                        },
                        pr.1,
                    ),
            ),
        ),
        _ => args,
    }
}

/// How a tree-format tool call reads in the canonical vocabulary: known
/// lowercase names map to their capitalized forms, the file tools also
/// rename their argument fields, and unknown names only gain a capital.
pub open spec fn pi_tool_of(name: Seq<char>, args: JsonV) -> (Seq<char>, JsonV) {
    if name == "bash"@ {
        ("Bash"@, args)
    } else if name == "grep"@ {
        ("Grep"@, args)
    } else if name == "glob"@ {
        ("Glob"@, args)
    } else if name == "read"@ {
        ("Read"@, remap_keys(args, false))
    } else if name == "write"@ {
        ("Write"@, remap_keys(args, false))
    } else if name == "edit"@ {
        ("Edit"@, remap_keys(args, true))
    } else {
        (cap_first(name), args)
    }
}

/// Rename the keys of an object node in place.
fn remap_keys_exec(args: JsonNode, edit: bool) -> (r: JsonNode)
    ensures
        r@ == remap_keys(args@, edit),
{
    match args {
        JsonNode::Obj(pairs) => {
            let ghost vs = crate::json::pairs_view(pairs@);
            let ghost target = match remap_keys(JsonV::Obj(vs), edit) {
                JsonV::Obj(t) => t,
                _ => Seq::empty(),
            };
            let mut rest = pairs;
            let mut out: Vec<(String, JsonNode)> = Vec::new();
            let ghost total = vs.len();
            proof {
                assert(crate::json::pairs_view(rest@) =~= vs.skip(0));
                assert(crate::json::pairs_view(out@) =~= target.take(0));
                assert(target.len() == total);
            }
            loop
                invariant
                    crate::json::pairs_view(rest@) == vs.skip(total - rest@.len()),
                    crate::json::pairs_view(out@) == target.take(total - rest@.len()),
                    rest@.len() <= total,
                    total == vs.len(),
                    target.len() == total,
                    target == (match remap_keys(JsonV::Obj(vs), edit) {
                        JsonV::Obj(t) => t,
                        _ => Seq::<(Seq<char>, JsonV)>::empty(),
                    }),
                ensures
                    rest@.len() == 0,
                    crate::json::pairs_view(out@) == target.take(total as int),
                decreases rest@.len(),
            {
                if rest.len() == 0 {
                    proof {
                        assert(target.take(total - rest@.len()) =~= target.take(total as int));
                    }
                    break ;
                }
                let ghost k = total - rest@.len();
                let ghost prev = rest@;
                let (key, v) = rest.remove(0);
                proof {
                    assert(rest@ =~= prev.drop_first());
                    assert(crate::json::pairs_view(prev)[0] == (prev[0].0@, prev[0].1.view_rec()));
                    assert((key@, v@) == vs[k]);
                    assert forall|t: int| 0 <= t < rest@.len() implies crate::json::pairs_view(
                        rest@,
                    )[t] == vs.skip(k + 1)[t] by {
                        assert(rest@[t] == prev[t + 1]);
                        assert(crate::json::pairs_view(prev)[t + 1] == (
                            prev[t + 1].0@,
                            prev[t + 1].1.view_rec(),
                        ));
                        assert(crate::json::pairs_view(prev)[t + 1] == vs.skip(k)[t + 1]);
                    }
                    assert(crate::json::pairs_view(rest@) =~= vs.skip(k + 1));
                }
                let nk: String = if edit {
                    if str_eq(key.as_str(), "path") {
                        String::from_str("file_path")
                    } else if str_eq(key.as_str(), "oldText") {
                        String::from_str("old_string")
                    } else if str_eq(key.as_str(), "newText") {
                        String::from_str("new_string")
                    } else {
                        key
                    }
                } else {
                    if str_eq(key.as_str(), "path") {
                        String::from_str("file_path")
                    } else {
                        key
                    }
                };
                let ghost nkg = nk;
                let ghost vg = v;
                let ghost prevout = out@;
                out.push((nk, v));
                proof {
                    assert(out@ == prevout.push((nkg, vg)));
                    crate::json::lemma_pairs_view_push(prevout, (nkg, vg));
                    assert(target[k] == (
                        if edit {
                            rename_edit(vs[k].0)
                        } else {
                            rename_rw(vs[k].0)
                        },
                        vs[k].1,
                    ));
                    assert((nkg@, vg.view_rec()) == target[k]);
                    assert(crate::json::pairs_view(out@) =~= target.take(k + 1));
                }
            }
            proof {
                assert(target.take(total as int) =~= target);
            }
            JsonNode::Obj(out)
        },
        _ => args,
    }
}

/// Map a tool call into the canonical vocabulary.
pub fn normalize_pi_tool(name: &str, args: JsonNode) -> (r: (String, JsonNode))
    ensures
        (r.0@, r.1@) == pi_tool_of(name@, args@),
{
    if str_eq(name, "bash") {
        (String::from_str("Bash"), args)
    } else if str_eq(name, "grep") {
        (String::from_str("Grep"), args)
    } else if str_eq(name, "glob") {
        (String::from_str("Glob"), args)
    } else if str_eq(name, "read") {
        (String::from_str("Read"), remap_keys_exec(args, false))
    } else if str_eq(name, "write") {
        (String::from_str("Write"), remap_keys_exec(args, false))
    } else if str_eq(name, "edit") {
        (String::from_str("Edit"), remap_keys_exec(args, true))
    } else {
        let n: usize = name.unicode_len();
        if n == 0 {
            (String::new(), args)
        } else {
            let c = name.get_char(0);
            let uc: char = if 'a' <= c && c <= 'z' {
                (((c as u32) - 32) as u8) as char
            } else {
                c
            };
            let mut out = String::new();
            push_char(&mut out, uc);
            let tail = name.substring_char(1, n);
            out.append(tail);
            proof {
                assert(tail@ =~= name@.drop_first());
                assert(out@ =~= cap_first(name@));
            }
            (out, args)
        }
    }
}


/// One block of a user message's content array, if the item carries one.
pub open spec fn pi_user_block_of(item: JsonV) -> Option<BlockV> {
    match jv_field_str(item, "type"@) {
        Some(t) => if t == "text"@ {
            match jv_field_str(item, "text"@) {
                Some(tx) => if tx.len() > 0 {
                    Some(BlockV::Text { text: tx })
                } else {
                    None
                },
                None => None,
            }
        } else if t == "image"@ {
            Some(
                BlockV::Image {
                    source: Some(
                        crate::model::ImageSourceV {
                            source_type: "base64"@,
                            media_type: crate::codex::str_or(item, "mimeType"@, "image/png"@),
                            data: crate::codex::str_or(item, "data"@, Seq::empty()),
                        },
                    ),
                },
            )
        } else {
            None
        },
        None => None,
    }
}

/// The blocks of a user content array.
pub open spec fn pi_user_items(items: Seq<JsonV>) -> Seq<BlockV>
    decreases items.len(),
{
    if items.len() == 0 {
        Seq::empty()
    } else {
        pi_user_items(items.drop_last()) + (match pi_user_block_of(items.last()) {
            Some(b) => seq![b],
            None => Seq::<BlockV>::empty(),
        })
    }
}

/// The blocks of a user message: a bare string is one text block, an array
/// is read item by item, anything else is empty.
pub open spec fn pi_user_blocks(m: JsonV) -> Seq<BlockV> {
    match jv_field(m, "content"@) {
        Some(JsonV::Str(s)) => if s.len() == 0 {
            Seq::empty()
        } else {
            seq![BlockV::Text { text: s }]
        },
        Some(JsonV::Arr(items)) => pi_user_items(items),
        _ => Seq::empty(),
    }
}

/// One block of an assistant message's content array.
pub open spec fn pi_assistant_block_of(item: JsonV) -> Option<BlockV> {
    match jv_field_str(item, "type"@) {
        Some(t) => if t == "text"@ {
            match jv_field_str(item, "text"@) {
                Some(tx) => if tx.len() > 0 {
                    Some(BlockV::Text { text: tx })
                } else {
                    None
                },
                None => None,
            }
        } else if t == "thinking"@ {
            match jv_field_str(item, "thinking"@) {
                Some(tx) => if tx.len() > 0 {
                    Some(BlockV::Thinking { thinking: tx })
                } else {
                    None
                },
                None => None,
            }
        } else if t == "toolCall"@ {
            match (jv_field_str(item, "id"@), jv_field_str(item, "name"@)) {
                (Some(id), Some(raw)) => {
                    let args = match jv_field(item, "arguments"@) {
                        Some(v) => v,
                        None => JsonV::Obj(Seq::empty()),
                    };
                    let nt = pi_tool_of(raw, args);
                    Some(BlockV::ToolUse { id: id, name: nt.0, input: nt.1 })
                },
                _ => None,
            }
        } else {
            None
        },
        None => None,
    }
}

/// The blocks of an assistant content array.
pub open spec fn pi_assistant_items(items: Seq<JsonV>) -> Seq<BlockV>
    decreases items.len(),
{
    if items.len() == 0 {
        Seq::empty()
    } else {
        pi_assistant_items(items.drop_last()) + (match pi_assistant_block_of(items.last()) {
            Some(b) => seq![b],
            None => Seq::<BlockV>::empty(),
        })
    }
}

/// The blocks of an assistant message: only an array content is read.
pub open spec fn pi_assistant_blocks(m: JsonV) -> Seq<BlockV> {
    match jv_field(m, "content"@) {
        Some(JsonV::Arr(items)) => pi_assistant_items(items),
        _ => Seq::empty(),
    }
}

/// Extract the blocks of a user message.
fn pi_user_blocks_exec(m: &JsonNode) -> (r: Vec<ContentBlock>)
    ensures
        r@.map_values(|b: ContentBlock| b@) == pi_user_blocks(m@),
{
    let mut out: Vec<ContentBlock> = Vec::new();
    let content = match obj_get(m, "content") {
        Some(c) => c,
        None => {
            proof {
                assert(out@.map_values(|b: ContentBlock| b@) =~= pi_user_blocks(m@));
            }
            return out;
        },
    };
    match content {
        JsonNode::Str(s) => {
            if !s.as_str().is_empty() {
                out.push(ContentBlock::Text { text: s.clone() });
            }
            proof {
                assert(out@.map_values(|b: ContentBlock| b@) =~= pi_user_blocks(m@));
            }
            out
        },
        JsonNode::Arr(items) => {
            let ghost vs = nodes_view(items@);
            proof {
                assert(content@ == JsonV::Arr(vs));
            }
            let mut i: usize = 0;
            proof {
                assert(vs.take(0) =~= Seq::<JsonV>::empty());
                assert(out@.map_values(|b: ContentBlock| b@) =~= pi_user_items(vs.take(0)));
            }
            while i < items.len()
                invariant
                    i <= items@.len(),
                    vs == nodes_view(items@),
                    vs.len() == items@.len(),
                    out@.map_values(|b: ContentBlock| b@) == pi_user_items(vs.take(i as int)),
                decreases items@.len() - i,
            {
                let item = &items[i];
                proof {
                    assert(item@ == vs[i as int]);
                }
                match get_str(item, "type") {
                    Some(t) => {
                        if str_eq(t.as_str(), "text") {
                            match get_str(item, "text") {
                                Some(tx) => {
                                    if !tx.as_str().is_empty() {
                                        out.push(ContentBlock::Text { text: tx.clone() });
                                    }
                                },
                                None => {},
                            }
                        } else if str_eq(t.as_str(), "image") {
                            let data: String = match get_str(item, "data") {
                                Some(d) => d.clone(),
                                None => String::new(),
                            };
                            let mime: String = match get_str(item, "mimeType") {
                                Some(mm) => mm.clone(),
                                None => String::from_str("image/png"),
                            };
                            out.push(
                                ContentBlock::Image {
                                    source: Some(
                                        ImageSource {
                                            source_type: String::from_str("base64"),
                                            media_type: mime,
                                            data,
                                        },
                                    ),
                                },
                            );
                        }
                    },
                    None => {},
                }
                proof {
                    assert(vs.take(i + 1 as int).drop_last() =~= vs.take(i as int));
                    assert(vs.take(i + 1 as int).last() == vs[i as int]);
                    assert(out@.map_values(|b: ContentBlock| b@) =~= pi_user_items(
                        vs.take(i + 1 as int),
                    ));
                }
                i = i + 1;
            }
            proof {
                assert(vs.take(items@.len() as int) =~= vs);
            }
            out
        },
        _ => {
            proof {
                assert(out@.map_values(|b: ContentBlock| b@) =~= pi_user_blocks(m@));
            }
            out
        },
    }
}

/// Extract the blocks of an assistant message.
fn pi_assistant_blocks_exec(m: &JsonNode) -> (r: Vec<ContentBlock>)
    ensures
        r@.map_values(|b: ContentBlock| b@) == pi_assistant_blocks(m@),
{
    let mut out: Vec<ContentBlock> = Vec::new();
    let items = match obj_get(m, "content") {
        Some(c) => match c {
            JsonNode::Arr(items) => {
                proof {
                    assert(c@ == JsonV::Arr(nodes_view(items@)));
                }
                items
            },
            _ => {
                proof {
                    assert(out@.map_values(|b: ContentBlock| b@) =~= pi_assistant_blocks(m@));
                }
                return out;
            },
        },
        None => {
            proof {
                assert(out@.map_values(|b: ContentBlock| b@) =~= pi_assistant_blocks(m@));
            }
            return out;
        },
    };
    let ghost vs = nodes_view(items@);
    let mut i: usize = 0;
    proof {
        assert(vs.take(0) =~= Seq::<JsonV>::empty());
        assert(out@.map_values(|b: ContentBlock| b@) =~= pi_assistant_items(vs.take(0)));
    }
    while i < items.len()
        invariant
            i <= items@.len(),
            vs == nodes_view(items@),
            vs.len() == items@.len(),
            pi_assistant_blocks(m@) == pi_assistant_items(vs),
            out@.map_values(|b: ContentBlock| b@) == pi_assistant_items(vs.take(i as int)),
        decreases items@.len() - i,
    {
        let item = &items[i];
        proof {
            assert(item@ == vs[i as int]);
        }
        match get_str(item, "type") {
            Some(t) => {
                if str_eq(t.as_str(), "text") {
                    match get_str(item, "text") {
                        Some(tx) => {
                            if !tx.as_str().is_empty() {
                                out.push(ContentBlock::Text { text: tx.clone() });
                            }
                        },
                        None => {},
                    }
                } else if str_eq(t.as_str(), "thinking") {
                    match get_str(item, "thinking") {
                        Some(tx) => {
                            if !tx.as_str().is_empty() {
                                out.push(ContentBlock::Thinking { thinking: tx.clone() });
                            }
                        },
                        None => {},
                    }
                } else if str_eq(t.as_str(), "toolCall") {
                    let ido = match get_str(item, "id") {
                        Some(s) => Some(s.clone()),
                        None => None,
                    };
                    let rawo = match get_str(item, "name") {
                        Some(s) => Some(s.clone()),
                        None => None,
                    };
                    match (ido, rawo) {
                        (Some(id), Some(raw)) => {
                            let args: JsonNode = match obj_get(item, "arguments") {
                                Some(v) => clone_json(v),
                                None => JsonNode::Obj(Vec::new()),
                            };
                            proof {
                                assert(crate::json::pairs_view(
                                    Seq::<(String, JsonNode)>::empty(),
                                ) =~= Seq::<(Seq<char>, JsonV)>::empty());
                            }
                            let nt = normalize_pi_tool(raw.as_str(), args);
                            out.push(ContentBlock::ToolUse { id, name: nt.0, input: nt.1 });
                        },
                        _ => {},
                    }
                }
            },
            None => {},
        }
        proof {
            assert(vs.take(i + 1 as int).drop_last() =~= vs.take(i as int));
            assert(vs.take(i + 1 as int).last() == vs[i as int]);
            assert(out@.map_values(|b: ContentBlock| b@) =~= pi_assistant_items(
                vs.take(i + 1 as int),
            ));
        }
        i = i + 1;
    }
    proof {
        assert(vs.take(items@.len() as int) =~= vs);
    }
    out
}


/// Decimal text of an integer, with a sign when negative.
pub open spec fn int_text(v: int) -> Seq<char> {
    if v < 0 {
        seq!['-'] + dec_text((-v) as nat)
    } else {
        dec_text(v as nat)
    }
}

/// The synthetic text of a shell-execution entry: command, output, and the
/// exit code when one is known.
pub open spec fn bash_text(cmd: Seq<char>, outp: Seq<char>, code: Option<int>) -> Seq<char> {
    "$ "@ + cmd + "\n"@ + outp + (match code {
        Some(c) => "\n[exit code: "@ + int_text(c) + "]"@,
        None => Seq::<char>::empty(),
    })
}

/// The exact integer a JSON value carries, if it is an integer number
/// within the reading cap.
pub open spec fn json_i64_of(j: JsonV) -> Option<int> {
    match j {
        JsonV::Num(t) => match exact_int(t) {
            Some(v) => if -int_read_cap() < v < int_read_cap() {
                Some(v)
            } else {
                None
            },
            None => None,
        },
        _ => None,
    }
}

/// Read a JSON value as an integer.
fn json_as_i64(n: &JsonNode) -> (r: Option<i64>)
    ensures
        match r {
            Some(x) => json_i64_of(n@) == Some(x as int),
            None => json_i64_of(n@) is None,
        },
{
    match n {
        JsonNode::Num(t) => parse_exact_i64(t.as_str()),
        _ => None,
    }
}

/// The canonical messages one branch entry contributes (none or one).
pub open spec fn pi_entry_msgs(e: PiRecV, idx: int, sid: Seq<char>, filename: Seq<char>) -> Seq<
    MsgV,
> {
    if e.rt != "message"@ {
        Seq::empty()
    } else {
        match e.msg {
            None => Seq::empty(),
            Some(m) => {
                let entry_id = match e.id {
                    Some(id) => id,
                    None => "idx-"@ + dec_text(idx as nat),
                };
                let ts = match e.ts {
                    Some(tv) => timestamp_of(tv),
                    None => match jv_field(m, "timestamp"@) {
                        Some(tv) => timestamp_of(tv),
                        None => Seq::empty(),
                    },
                };
                let role = crate::codex::str_or(m, "role"@, Seq::empty());
                if role == "user"@ {
                    let blocks = pi_user_blocks(m);
                    if blocks.len() == 0 {
                        Seq::empty()
                    } else {
                        seq![
                            MsgV {
                                uuid: pi_uuid_of(sid, entry_id),
                                role: "user"@,
                                timestamp: ts,
                                content: blocks,
                                source_file: Some(filename),
                            },
                        ]
                    }
                } else if role == "assistant"@ {
                    let blocks = pi_assistant_blocks(m);
                    if blocks.len() == 0 {
                        Seq::empty()
                    } else {
                        seq![
                            MsgV {
                                uuid: pi_uuid_of(sid, entry_id),
                                role: "assistant"@,
                                timestamp: ts,
                                content: blocks,
                                source_file: Some(filename),
                            },
                        ]
                    }
                } else if role == "toolResult"@ {
                    seq![
                        MsgV {
                            uuid: pi_uuid_of(sid, entry_id),
                            role: "user"@,
                            timestamp: ts,
                            content: seq![
                                BlockV::ToolResult {
                                    tool_use_id: crate::codex::str_or(
                                        m,
                                        "toolCallId"@,
                                        Seq::empty(),
                                    ),
                                    content: match jv_field(m, "content"@) {
                                        Some(v) => v,
                                        None => JsonV::Null,
                                    },
                                    is_error: jv_field_bool(m, "isError"@),
                                },
                            ],
                            source_file: Some(filename),
                        },
                    ]
                } else if role == "bashExecution"@ {
                    seq![
                        MsgV {
                            uuid: pi_uuid_of(sid, entry_id),
                            role: "user"@,
                            timestamp: ts,
                            content: seq![
                                BlockV::Text {
                                    text: bash_text(
                                        crate::codex::str_or(m, "command"@, Seq::empty()),
                                        crate::codex::str_or(m, "output"@, Seq::empty()),
                                        match jv_field(m, "exitCode"@) {
                                            Some(v) => json_i64_of(v),
                                            None => None,
                                        },
                                    ),
                                },
                            ],
                            source_file: Some(filename),
                        },
                    ]
                } else {
                    Seq::empty()
                }
            },
        }
    }
}

/// Build the message of one branch entry, when it contributes one.
fn pi_entry_message(e: &PiRec, idx: usize, sid: &str, filename: &str) -> (r: Option<
    NormalizedMessage,
>)
    ensures
        match r {
            Some(m) => pi_entry_msgs(e@, idx as int, sid@, filename@) == seq![m@],
            None => pi_entry_msgs(e@, idx as int, sid@, filename@) == Seq::<MsgV>::empty(),
        },
{
    proof {
        assert(Seq::<MsgV>::empty() =~= Seq::<MsgV>::empty());
    }
    if !str_eq(e.rt.as_str(), "message") {
        return None;
    }
    let m: &JsonNode = match &e.msg {
        Some(m) => m,
        None => {
            return None;
        },
    };
    let entry_id: String = match &e.id {
        Some(id) => id.clone(),
        None => {
            let mut s = String::new();
            s.append("idx-");
            crate::text::append_u64(&mut s, idx as u64);
            proof {
                assert(s@ =~= "idx-"@ + dec_text(idx as nat));
            }
            s
        },
    };
    let ts: String = match &e.ts {
        Some(tv) => timestamp_string(tv),
        None => {
            match obj_get(m, "timestamp") {
                Some(tv) => timestamp_string(tv),
                None => String::new(),
            }
        },
    };
    let role: String = match get_str(m, "role") {
        Some(r) => r.clone(),
        None => String::new(),
    };
    if str_eq(role.as_str(), "user") {
        let blocks = pi_user_blocks_exec(m);
        if blocks.len() == 0 {
            return None;
        }
        let msg = NormalizedMessage {
            uuid: generate_uuid(sid, entry_id.as_str()),
            role: String::from_str("user"),
            timestamp: ts,
            content: blocks,
            source_file: Some(filename.to_owned()),
        };
        proof {
            assert(seq![msg@] =~= pi_entry_msgs(e@, idx as int, sid@, filename@));
        }
        Some(msg)
    } else if str_eq(role.as_str(), "assistant") {
        let blocks = pi_assistant_blocks_exec(m);
        if blocks.len() == 0 {
            return None;
        }
        let msg = NormalizedMessage {
            uuid: generate_uuid(sid, entry_id.as_str()),
            role: String::from_str("assistant"),
            timestamp: ts,
            content: blocks,
            source_file: Some(filename.to_owned()),
        };
        proof {
            assert(seq![msg@] =~= pi_entry_msgs(e@, idx as int, sid@, filename@));
        }
        Some(msg)
    } else if str_eq(role.as_str(), "toolResult") {
        let tool_call_id: String = match get_str(m, "toolCallId") {
            Some(s) => s.clone(),
            None => String::new(),
        };
        let is_error = crate::json::get_bool(m, "isError");
        let content_val: JsonNode = match obj_get(m, "content") {
            Some(v) => clone_json(v),
            None => JsonNode::Null,
        };
        let mut blocks: Vec<ContentBlock> = Vec::new();
        blocks.push(
            ContentBlock::ToolResult { tool_use_id: tool_call_id, content: content_val, is_error },
        );
        let msg = NormalizedMessage {
            uuid: generate_uuid(sid, entry_id.as_str()),
            role: String::from_str("user"),
            timestamp: ts,
            content: blocks,
            source_file: Some(filename.to_owned()),
        };
        proof {
            assert(msg@.content =~= pi_entry_msgs(e@, idx as int, sid@, filename@)[0].content);
            assert(seq![msg@] =~= pi_entry_msgs(e@, idx as int, sid@, filename@));
        }
        Some(msg)
    } else if str_eq(role.as_str(), "bashExecution") {
        let command: String = match get_str(m, "command") {
            Some(s) => s.clone(),
            None => String::new(),
        };
        let output: String = match get_str(m, "output") {
            Some(s) => s.clone(),
            None => String::new(),
        };
        let exit_code: Option<i64> = match obj_get(m, "exitCode") {
            Some(v) => json_as_i64(v),
            None => None,
        };
        let mut text = String::new();
        text.append("$ ");
        text.append(command.as_str());
        text.append("\n");
        text.append(output.as_str());
        match exit_code {
            Some(c) => {
                text.append("\n[exit code: ");
                if c < 0 {
                    push_char(&mut text, '-');
                    crate::text::append_u64(&mut text, (-c) as u64);
                } else {
                    crate::text::append_u64(&mut text, c as u64);
                }
                text.append("]");
            },
            None => {},
        }
        let ghost code_spec = match jv_field(m@, "exitCode"@) {
            Some(v) => json_i64_of(v),
            None => None,
        };
        proof {
            assert(text@ =~= bash_text(
                crate::codex::str_or(m@, "command"@, Seq::empty()),
                crate::codex::str_or(m@, "output"@, Seq::empty()),
                code_spec,
            ));
        }
        let mut blocks: Vec<ContentBlock> = Vec::new();
        blocks.push(ContentBlock::Text { text });
        let msg = NormalizedMessage {
            uuid: generate_uuid(sid, entry_id.as_str()),
            role: String::from_str("user"),
            timestamp: ts,
            content: blocks,
            source_file: Some(filename.to_owned()),
        };
        proof {
            assert(msg@.content =~= pi_entry_msgs(e@, idx as int, sid@, filename@)[0].content);
            assert(seq![msg@] =~= pi_entry_msgs(e@, idx as int, sid@, filename@));
        }
        Some(msg)
    } else {
        None
    }
}


/// The indices as mathematical integers.
pub open spec fn ints_view(s: Seq<usize>) -> Seq<int> {
    s.map_values(|x: usize| x as int)
}

/// When no entry past `j` carries the id, the latest match is in the prefix.
proof fn lemma_find_last_suffix(s: Seq<PiRecV>, id: Seq<char>, j: int)
    requires
        0 <= j <= s.len(),
        forall|t: int| j <= t < s.len() ==> #[trigger] s[t].id != Some(id),
    ensures
        find_last_id(s, id) == find_last_id(s.take(j), id),
    decreases s.len() - j,
{
    if j < s.len() {
        assert(s.last().id != Some(id));
        let sd = s.drop_last();
        assert(forall|t: int| j <= t < sd.len() ==> #[trigger] sd[t].id != Some(id));
        lemma_find_last_suffix(sd, id, j);
        assert(sd.take(j) =~= s.take(j));
    } else {
        assert(s.take(j) =~= s);
    }
}

/// Walk from the latest leaf back to the root, then reverse.
fn pi_walk(entries: &Vec<PiRec>, last: &Option<String>) -> (branch: Vec<usize>)
    ensures
        ints_view(branch@) == pi_branch(
            recs_view(entries@),
            match last {
                Some(s) => Some(s@),
                None => None,
            },
        ),
{
    let ghost ev = recs_view(entries@);
    let leaf: &String = match last {
        Some(s) => s,
        None => {
            let mut all: Vec<usize> = Vec::new();
            let mut i: usize = 0;
            while i < entries.len()
                invariant
                    i <= entries@.len(),
                    all@.len() == i,
                    forall|t: int| 0 <= t < i ==> all@[t] == t,
                decreases entries@.len() - i,
            {
                all.push(i);
                i = i + 1;
            }
            proof {
                assert(ints_view(all@) =~= Seq::new(ev.len(), |t: int| t));
            }
            return all;
        },
    };
    let mut chain: Vec<usize> = Vec::new();
    let mut cur: Option<String> = Some(leaf.clone());
    let ghost fuel0 = (entries@.len() + 1) as nat;
    let ghost cur0 = Some(leaf@);
    proof {
        assert(ints_view(chain@) =~= Seq::<int>::empty());
        assert(walk_rev(ev, cur0, fuel0) == ints_view(chain@) + walk_rev(ev, cur0, fuel0));
    }
    loop
        invariant
            chain@.len() <= fuel0,
            fuel0 == (entries@.len() + 1) as nat,
            ev == recs_view(entries@),
            ev.len() == entries@.len(),
            walk_rev(ev, cur0, fuel0) == ints_view(chain@) + walk_rev(
                ev,
                match cur {
                    Some(s) => Some(s@),
                    None => None,
                },
                (fuel0 - chain@.len()) as nat,
            ),
        ensures
            walk_rev(ev, cur0, fuel0) == ints_view(chain@),
        decreases fuel0 - chain@.len(),
    {
        let ghost fuel = (fuel0 - chain@.len()) as nat;
        let ghost curv = match cur {
            Some(ref s) => Some(s@),
            None => None,
        };
        if chain.len() > entries.len() {
            proof {
                assert(fuel == 0);
                assert(walk_rev(ev, curv, 0) =~= Seq::<int>::empty());
                assert(ints_view(chain@) + Seq::<int>::empty() =~= ints_view(chain@));
            }
            break ;
        }
        let id: String = match cur {
            Some(s) => s,
            None => {
                proof {
                    assert(walk_rev(ev, curv, fuel as nat) =~= Seq::<int>::empty());
                    assert(ints_view(chain@) + Seq::<int>::empty() =~= ints_view(chain@));
                }
                break ;
            },
        };
        let mut j: usize = entries.len();
        loop
            invariant
                j <= entries@.len(),
                ev == recs_view(entries@),
                ev.len() == entries@.len(),
                forall|t: int| j <= t < ev.len() ==> #[trigger] ev[t].id != Some(id@),
            ensures
                j <= entries@.len(),
                forall|t: int| j <= t < ev.len() ==> #[trigger] ev[t].id != Some(id@),
                j == 0 || ev[j - 1].id == Some(id@),
            decreases j,
        {
            if j == 0 {
                break ;
            }
            let hit: bool = match &entries[j - 1].id {
                Some(s) => str_eq(s.as_str(), id.as_str()),
                None => false,
            };
            if hit {
                proof {
                    assert(ev[j - 1] == entries@[j - 1 as int]@);
                }
                break ;
            }
            proof {
                assert(ev[j - 1] == entries@[j - 1 as int]@);
            }
            j = j - 1;
        }
        proof {
            lemma_find_last_suffix(ev, id@, j as int);
        }
        if j == 0 {
            proof {
                assert(ev.take(0) =~= Seq::<PiRecV>::empty());
                assert(find_last_id(ev, id@) is None);
                assert(walk_rev(ev, curv, fuel as nat) =~= Seq::<int>::empty());
                assert(ints_view(chain@) + Seq::<int>::empty() =~= ints_view(chain@));
            }
            break ;
        }
        let idx: usize = j - 1;
        proof {
            assert(ev.take(j as int).last() == ev[j - 1]);
            assert(find_last_id(ev.take(j as int), id@) == Some(j - 1));
            assert(find_last_id(ev, id@) == Some(idx as int));
        }
        let ghost chain0 = chain@;
        chain.push(idx);
        cur = match &entries[idx].parent {
            Some(p) => Some(p.clone()),
            None => None,
        };
        proof {
            assert(ev[idx as int] == entries@[idx as int]@);
            assert(fuel >= 1);
            assert(walk_rev(ev, curv, fuel) == seq![idx as int] + walk_rev(
                ev,
                ev[idx as int].parent,
                (fuel - 1) as nat,
            ));
            assert(ints_view(chain@) =~= ints_view(chain0) + seq![idx as int]);
            assert((fuel0 - chain@.len()) as nat == (fuel - 1) as nat);
            assert(ints_view(chain@) + walk_rev(
                ev,
                match cur {
                    Some(ref s) => Some(s@),
                    None => None,
                },
                (fuel - 1) as nat,
            ) =~= walk_rev(ev, cur0, fuel0));
        }
    }
    let mut out: Vec<usize> = Vec::new();
    let mut k: usize = chain.len();
    while k > 0
        invariant
            k <= chain@.len(),
            out@.len() == chain@.len() - k,
            forall|t: int| 0 <= t < out@.len() ==> out@[t] == chain@[chain@.len() - 1 - t],
            walk_rev(ev, cur0, fuel0) == ints_view(chain@),
            ev == recs_view(entries@),
        decreases k,
    {
        k = k - 1;
        out.push(chain[k]);
    }
    proof {
        assert forall|t: int| 0 <= t < out@.len() implies ints_view(out@)[t] == ints_view(
            chain@,
        ).reverse()[t] by {
            assert(out@[t] == chain@[chain@.len() - 1 - t]);
            assert(ints_view(chain@)[chain@.len() - 1 - t] == chain@[chain@.len() - 1 - t] as int);
        }
        assert(ints_view(out@) =~= ints_view(chain@).reverse());
    }
    out
}

/// The canonical messages of one branch, in branch order.
pub open spec fn pi_branch_msgs(
    entries: Seq<PiRecV>,
    branch: Seq<int>,
    sid: Seq<char>,
    filename: Seq<char>,
) -> Seq<MsgV>
    decreases branch.len(),
{
    if branch.len() == 0 {
        Seq::empty()
    } else {
        pi_branch_msgs(entries, branch.drop_last(), sid, filename) + (if 0 <= branch.last()
            < entries.len() {
            pi_entry_msgs(entries[branch.last()], branch.last(), sid, filename)
        } else {
            Seq::<MsgV>::empty()
        })
    }
}

/// What parsing a whole tree-format session yields: the header metadata,
/// and the messages of the current branch in timestamp order.
pub open spec fn pi_parse_of(filename: Seq<char>, lines: Seq<Seq<char>>) -> (PiMetaV, Seq<MsgV>) {
    let st = pi_scan(lines);
    (
        st.header,
        sort_by_ts(
            pi_branch_msgs(st.entries, pi_branch(st.entries, st.last), st.header.id, filename),
        ),
    )
}

/// Parse a whole tree-format session: the raw lines in file order, plus the
/// filename recorded as each message's source.
pub fn parse_pi_session(filename: &str, lines: &Vec<String>) -> (r: (
    PiSessionMeta,
    Vec<NormalizedMessage>,
))
    ensures
        (r.0@, msgs_view(r.1@)) == pi_parse_of(filename@, crate::text::strs_view(lines@)),
{
    let ghost lviews = crate::text::strs_view(lines@);
    let mut header = PiSessionMeta {
        id: String::new(),
        cwd: String::new(),
        timestamp: String::new(),
    };
    let mut entries: Vec<PiRec> = Vec::new();
    let mut last: Option<String> = None;
    let mut i: usize = 0;
    proof {
        assert(lviews.take(0) =~= Seq::<Seq<char>>::empty());
        assert(recs_view(entries@) =~= Seq::<PiRecV>::empty());
    }
    while i < lines.len()
        invariant
            i <= lines@.len(),
            lviews == crate::text::strs_view(lines@),
            lviews.len() == lines@.len(),
            ({
                let st = pi_scan(lviews.take(i as int));
                header@ == st.header && recs_view(entries@) == st.entries && (match last {
                    Some(ref s) => Some(s@),
                    None => None::<Seq<char>>,
                }) == st.last
            }),
        decreases lines@.len() - i,
    {
        let ghost st0 = pi_scan(lviews.take(i as int));
        match pi_decode_line(lines[i].as_str()) {
            None => {},
            Some(rec) => {
                if str_eq(rec.rt.as_str(), "session") {
                    match rec.id {
                        Some(s) => {
                            header.id = s;
                        },
                        None => {},
                    }
                    match rec.cwd {
                        Some(c) => {
                            header.cwd = c;
                        },
                        None => {
                            header.cwd = String::new();
                        },
                    }
                    match &rec.ts {
                        Some(tv) => {
                            header.timestamp = timestamp_string(tv);
                        },
                        None => {},
                    }
                } else {
                    match &rec.id {
                        Some(s) => {
                            last = Some(s.clone());
                        },
                        None => {},
                    }
                    let ghost prev = entries@;
                    let ghost recg = rec;
                    entries.push(rec);
                    proof {
                        assert(entries@ == prev.push(recg));
                        assert forall|t: int| 0 <= t < entries@.len() implies recs_view(entries@)[t]
                            == st0.entries.push(recg@)[t] by {
                            if t < prev.len() {
                                assert(recs_view(prev)[t] == st0.entries[t]);
                                assert(entries@[t] == prev[t]);
                            } else {
                                assert(entries@[t] == recg);
                            }
                        }
                        assert(recs_view(entries@) =~= st0.entries.push(recg@));
                    }
                }
            },
        }
        proof {
            assert(lviews.take(i + 1 as int).drop_last() =~= lviews.take(i as int));
            assert(lviews.take(i + 1 as int).last() == lviews[i as int]);
            assert(lines@[i as int]@ == lviews[i as int]);
        }
        i = i + 1;
    }
    proof {
        assert(lviews.take(lines@.len() as int) =~= lviews);
    }
    let branch = pi_walk(&entries, &last);
    let ghost ev = recs_view(entries@);
    let ghost bv = ints_view(branch@);
    let mut msgs: Vec<NormalizedMessage> = Vec::new();
    let mut k: usize = 0;
    proof {
        assert(bv.take(0) =~= Seq::<int>::empty());
        assert(msgs_view(msgs@) =~= Seq::<MsgV>::empty());
    }
    while k < branch.len()
        invariant
            k <= branch@.len(),
            ev == recs_view(entries@),
            ev.len() == entries@.len(),
            bv == ints_view(branch@),
            bv.len() == branch@.len(),
            msgs_view(msgs@) == pi_branch_msgs(ev, bv.take(k as int), header@.id, filename@),
        decreases branch@.len() - k,
    {
        let bidx = branch[k];
        proof {
            assert(bv[k as int] == bidx as int);
        }
        if bidx < entries.len() {
            proof {
                assert(ev[bidx as int] == entries@[bidx as int]@);
            }
            match pi_entry_message(&entries[bidx], bidx, header.id.as_str(), filename) {
                Some(m) => {
                    let ghost mg = m;
                    let ghost prev = msgs@;
                    msgs.push(m);
                    proof {
                        assert(msgs@ == prev.push(mg));
                        assert forall|t: int| 0 <= t < msgs@.len() implies msgs_view(msgs@)[t]
                            == msgs_view(prev).push(mg@)[t] by {
                            if t < prev.len() {
                                assert(msgs@[t] == prev[t]);
                            } else {
                                assert(msgs@[t] == mg);
                            }
                        }
                        assert(msgs_view(msgs@) =~= msgs_view(prev).push(mg@));
                    }
                },
                None => {},
            }
        }
        proof {
            assert(bv.take(k + 1 as int).drop_last() =~= bv.take(k as int));
            assert(bv.take(k + 1 as int).last() == bv[k as int]);
            assert(msgs_view(msgs@) =~= pi_branch_msgs(
                ev,
                bv.take(k + 1 as int),
                header@.id,
                filename@,
            ));
        }
        k = k + 1;
    }
    proof {
        assert(bv.take(branch@.len() as int) =~= bv);
    }
    let sorted = sort_messages(msgs);
    (header, sorted)
}


/// Package the header metadata as canonical session metadata.
pub fn to_session_meta(pi_meta: &PiSessionMeta, project_id: &str, message_count: usize) -> (r:
    crate::model::SessionMeta)
    ensures
        r@ == (crate::model::MetaV {
            id: pi_meta@.id,
            project: project_id@,
            title: None,
            created_at: pi_meta@.timestamp,
            updated_at: pi_meta@.timestamp,
            message_count: message_count as int,
            last_memory_uuid: None,
            source: "pi"@,
        }),
{
    crate::model::SessionMeta {
        id: pi_meta.id.clone(),
        project: project_id.to_owned(),
        title: None,
        created_at: pi_meta.timestamp.clone(),
        updated_at: pi_meta.timestamp.clone(),
        message_count,
        last_memory_uuid: None,
        source: String::from_str("pi"),
    }
}


/// Branch exclusion: every message the normalizer emits for a tree comes
/// from an entry on the current branch — the root-to-leaf path reachable
/// from the latest leaf. An abandoned sibling branch's entries are not on
/// that path, so their content never appears.
pub proof fn lemma_branch_exclusion(
    entries: Seq<PiRecV>,
    branch: Seq<int>,
    sid: Seq<char>,
    filename: Seq<char>,
    m: MsgV,
)
    requires
        pi_branch_msgs(entries, branch, sid, filename).contains(m),
    ensures
        exists|k: int|
            0 <= k < branch.len() && 0 <= #[trigger] branch[k] < entries.len() && pi_entry_msgs(
                entries[branch[k]],
                branch[k],
                sid,
                filename,
            ).contains(m),
    decreases branch.len(),
{
    let whole = pi_branch_msgs(entries, branch, sid, filename);
    let prefix = pi_branch_msgs(entries, branch.drop_last(), sid, filename);
    let i = choose|i: int| 0 <= i < whole.len() && whole[i] == m;
    if i < prefix.len() {
        assert(prefix[i] == m);
        assert(prefix.contains(m));
        lemma_branch_exclusion(entries, branch.drop_last(), sid, filename, m);
        let k = choose|k: int|
            0 <= k < branch.drop_last().len() && 0 <= #[trigger] branch.drop_last()[k]
                < entries.len() && pi_entry_msgs(
                entries[branch.drop_last()[k]],
                branch.drop_last()[k],
                sid,
                filename,
            ).contains(m);
        assert(branch[k] == branch.drop_last()[k]);
    } else {
        assert(0 <= branch.last() < entries.len());
        let tail = pi_entry_msgs(entries[branch.last()], branch.last(), sid, filename);
        assert(tail[i - prefix.len()] == m);
        assert(tail.contains(m));
        assert(branch[branch.len() - 1] == branch.last());
    }
}

} // verus!
