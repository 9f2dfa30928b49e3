//! A self-contained JSON tree model.
//!
//! Raw transcript lines are JSON; the parsers probe their fields. The tree is
//! held as plain data so that every probe is verified; numbers keep their
//! exact decimal text, which avoids floating point and loses nothing when a
//! value is re-emitted. Only the initial parse of a line of text is trusted
//! to serde_json; everything after that works on the library's own tree.

use vstd::prelude::*;

use crate::text::{esc_char, esc_text, push_char};

verus! {

broadcast use vstd::seq::axiom_seq_index_decreases, vstd::seq::axiom_seq_subrange_decreases, vstd::std_specs::vec::axiom_vec_decreases_to_view, vstd::std_specs::vec::axiom_vec_index_decreases;

/// Ghost (specification-level) image of a JSON value.
#[verifier::ext_equal]
pub ghost enum JsonV {
    Null,
    Bool(bool),
    /// The number's decimal text, exactly as it stood in the source.
    Num(Seq<char>),
    Str(Seq<char>),
    Arr(Seq<JsonV>),
    Obj(Seq<(Seq<char>, JsonV)>),
}

/// A JSON value as plain data.
pub enum JsonNode {
    Null,
    Bool(bool),
    /// Decimal text of the number, kept verbatim.
    Num(String),
    Str(String),
    Arr(Vec<JsonNode>),
    /// Key-value pairs in source order; keys are unique after parsing.
    Obj(Vec<(String, JsonNode)>),
}

/// The images of a sequence of nodes.
pub open spec fn nodes_view(s: Seq<JsonNode>) -> Seq<JsonV>
    decreases s,
{
    Seq::new(
        s.len(),
        |i: int|
            if 0 <= i < s.len() {
                s[i].view_rec()
            } else {
                JsonV::Null
            },
    )
}

/// The images of a sequence of key-value pairs.
pub open spec fn pairs_view(s: Seq<(String, JsonNode)>) -> Seq<(Seq<char>, JsonV)>
    decreases s,
{
    Seq::new(
        s.len(),
        |i: int|
            if 0 <= i < s.len() {
                (s[i].0@, s[i].1.view_rec())
            } else {
                (Seq::<char>::empty(), JsonV::Null)
            },
    )
}

impl JsonNode {
    pub open spec fn view_rec(self) -> JsonV
        decreases self,
    {
        match self {
            JsonNode::Null => JsonV::Null,
            JsonNode::Bool(b) => JsonV::Bool(b),
            JsonNode::Num(s) => JsonV::Num(s@),
            JsonNode::Str(s) => JsonV::Str(s@),
            JsonNode::Arr(items) => JsonV::Arr(nodes_view(items@)),
            JsonNode::Obj(pairs) => JsonV::Obj(pairs_view(pairs@)),
        }
    }
}

impl View for JsonNode {
    type V = JsonV;

    open spec fn view(&self) -> JsonV {
        self.view_rec()
    }
}

/// First value under `key` in a pair list, if any.
pub open spec fn jv_get(pairs: Seq<(Seq<char>, JsonV)>, key: Seq<char>) -> Option<JsonV>
    decreases pairs.len(),
{
    if pairs.len() == 0 {
        None
    } else if pairs[0].0 == key {
        Some(pairs[0].1)
    } else {
        jv_get(pairs.drop_first(), key)
    }
}

/// Value of the field `key` of an object, if the value is an object and has
/// the field.
pub open spec fn jv_field(j: JsonV, key: Seq<char>) -> Option<JsonV> {
    match j {
        JsonV::Obj(pairs) => jv_get(pairs, key),
        _ => None,
    }
}

/// The text of a string-valued field, if it is there and is a string.
pub open spec fn jv_field_str(j: JsonV, key: Seq<char>) -> Option<Seq<char>> {
    match jv_field(j, key) {
        Some(JsonV::Str(s)) => Some(s),
        _ => None,
    }
}

/// The value of a boolean field, if it is there and is a boolean.
pub open spec fn jv_field_bool(j: JsonV, key: Seq<char>) -> Option<bool> {
    match jv_field(j, key) {
        Some(JsonV::Bool(b)) => Some(b),
        _ => None,
    }
}

/// Look up the field `key` of an object node.
pub fn obj_get<'a>(n: &'a JsonNode, key: &str) -> (r: Option<&'a JsonNode>)
    ensures
        match r {
            Some(v) => jv_field(n@, key@) == Some(v@),
            None => jv_field(n@, key@) is None,
        },
{
    match n {
        JsonNode::Obj(pairs) => {
            let k: String = key.to_owned();
            let ghost pv = pairs_view(pairs@);
            let mut i: usize = 0;
            proof {
                assert(pv.skip(0) =~= pv);
            }
            loop
                invariant
                    i <= pairs@.len(),
                    k@ == key@,
                    pv == pairs_view(pairs@),
                    n@ == JsonV::Obj(pv),
                    jv_get(pv, key@) == jv_get(pv.skip(i as int), key@),
                ensures
                    (i < pairs@.len() && jv_get(pv, key@) == Some(pv[i as int].1)) || (i
                        == pairs@.len() && jv_get(pv, key@) is None),
                decreases pairs@.len() - i,
            {
                if i >= pairs.len() {
                    break ;
                }
                if pairs[i].0 == k {
                    proof {
                        assert(pv.skip(i as int)[0] == pv[i as int]);
                    }
                    break ;
                }
                proof {
                    assert(pv.skip(i as int)[0] == pv[i as int]);
                    assert(pv.skip(i as int).drop_first() =~= pv.skip(i + 1 as int));
                }
                i = i + 1;
            }
            if i < pairs.len() {
                Some(&pairs[i].1)
            } else {
                None
            }
        },
        _ => None,
    }
}

/// The string behind a string node.
pub fn as_str<'a>(n: &'a JsonNode) -> (r: Option<&'a String>)
    ensures
        match r {
            Some(s) => n@ == JsonV::Str(s@),
            None => !(n@ is Str),
        },
{
    match n {
        JsonNode::Str(s) => Some(s),
        _ => None,
    }
}

/// The boolean behind a boolean node.
pub fn as_bool(n: &JsonNode) -> (r: Option<bool>)
    ensures
        match r {
            Some(b) => n@ == JsonV::Bool(b),
            None => !(n@ is Bool),
        },
{
    match n {
        JsonNode::Bool(b) => Some(*b),
        _ => None,
    }
}

/// The items behind an array node.
pub fn as_arr<'a>(n: &'a JsonNode) -> (r: Option<&'a Vec<JsonNode>>)
    ensures
        match r {
            Some(v) => n@ == JsonV::Arr(nodes_view(v@)),
            None => !(n@ is Arr),
        },
{
    match n {
        JsonNode::Arr(items) => Some(items),
        _ => None,
    }
}

/// String value of a field: `obj_get` then `as_str`.
pub fn get_str<'a>(n: &'a JsonNode, key: &str) -> (r: Option<&'a String>)
    ensures
        match r {
            Some(s) => jv_field_str(n@, key@) == Some(s@),
            None => jv_field_str(n@, key@) is None,
        },
{
    match obj_get(n, key) {
        Some(v) => as_str(v),
        None => None,
    }
}

/// Boolean value of a field: `obj_get` then `as_bool`.
pub fn get_bool(n: &JsonNode, key: &str) -> (r: Option<bool>)
    ensures
        match r {
            Some(b) => jv_field_bool(n@, key@) == Some(b),
            None => jv_field_bool(n@, key@) is None,
        },
{
    match obj_get(n, key) {
        Some(v) => as_bool(v),
        None => None,
    }
}

/// The canonical text of a JSON value: what this library writes.
pub open spec fn jv_text(j: JsonV) -> Seq<char>
    decreases j,
{
    match j {
        JsonV::Null => "null"@,
        JsonV::Bool(b) => if b {
            "true"@
        } else {
            "false"@
        },
        JsonV::Num(s) => s,
        JsonV::Str(s) => seq!['"'] + esc_text(s) + seq!['"'],
        JsonV::Arr(items) => seq!['['] + jv_items_text(items) + seq![']'],
        JsonV::Obj(pairs) => seq!['{'] + jv_pairs_text(pairs) + seq!['}'],
    }
}

/// Comma-separated texts of array items.
pub open spec fn jv_items_text(items: Seq<JsonV>) -> Seq<char>
    decreases items,
{
    if items.len() == 0 {
        Seq::empty()
    } else if items.len() == 1 {
        jv_text(items.last())
    } else {
        jv_items_text(items.drop_last()) + seq![','] + jv_text(items.last())
    }
}

/// Comma-separated texts of object fields.
pub open spec fn jv_pairs_text(pairs: Seq<(Seq<char>, JsonV)>) -> Seq<char>
    decreases pairs,
{
    if pairs.len() == 0 {
        Seq::empty()
    } else if pairs.len() == 1 {
        seq!['"'] + esc_text(pairs.last().0) + seq!['"', ':'] + jv_text(pairs.last().1)
    } else {
        jv_pairs_text(pairs.drop_last()) + seq![','] + seq!['"'] + esc_text(pairs.last().0)
            + seq!['"', ':'] + jv_text(pairs.last().1)
    }
}

/// The text of one key-value pair.
pub open spec fn jv_pair_text(key: Seq<char>, val: JsonV) -> Seq<char> {
    seq!['"'] + esc_text(key) + seq!['"', ':'] + jv_text(val)
}

/// Append the escaped form of `s` (string-literal body, without quotes).
pub fn append_escaped(out: &mut String, s: &str)
    ensures
        final(out)@ == old(out)@ + esc_text(s@),
{
    let n: usize = s.unicode_len();
    let mut i: usize = 0;
    proof {
        assert(s@.take(0) =~= Seq::<char>::empty());
        assert(old(out)@ + esc_text(s@.take(0)) =~= old(out)@);
    }
    while i < n
        invariant
            i <= n,
            n == s@.len(),
            out@ == old(out)@ + esc_text(s@.take(i as int)),
        decreases n - i,
    {
        let c = s.get_char(i);
        let ghost pre = out@;
        if c == '"' {
            push_char(out, '\\');
            push_char(out, '"');
        } else if c == '\\' {
            push_char(out, '\\');
            push_char(out, '\\');
        } else if c == '\u{08}' {
            push_char(out, '\\');
            push_char(out, 'b');
        } else if c == '\u{09}' {
            push_char(out, '\\');
            push_char(out, 't');
        } else if c == '\u{0A}' {
            push_char(out, '\\');
            push_char(out, 'n');
        } else if c == '\u{0C}' {
            push_char(out, '\\');
            push_char(out, 'f');
        } else if c == '\u{0D}' {
            push_char(out, '\\');
            push_char(out, 'r');
        } else if (c as u32) < 0x20 {
            let code: u32 = c as u32;
            push_char(out, '\\');
            push_char(out, 'u');
            push_char(out, '0');
            push_char(out, '0');
            push_char(out, crate::text::hex_digit_exec(code / 16));
            push_char(out, crate::text::hex_digit_exec(code % 16));
        } else {
            push_char(out, c);
        }
        proof {
            assert(out@ =~= pre + esc_char(c));
            assert(s@.take(i + 1 as int).drop_last() =~= s@.take(i as int));
            assert(s@.take(i + 1 as int).last() == c);
            assert(out@ =~= old(out)@ + esc_text(s@.take(i + 1 as int)));
        }
        i = i + 1;
    }
    proof {
        assert(s@.take(n as int) =~= s@);
    }
}

/// Append the canonical text of a JSON node.
pub fn append_json(out: &mut String, n: &JsonNode)
    ensures
        final(out)@ == old(out)@ + jv_text(n@),
    decreases n@,
{
    match n {
        JsonNode::Null => {
            out.append("null");
        },
        JsonNode::Bool(b) => {
            if *b {
                out.append("true");
            } else {
                out.append("false");
            }
        },
        JsonNode::Num(s) => {
            out.append(s.as_str());
        },
        JsonNode::Str(s) => {
            push_char(out, '"');
            append_escaped(out, s.as_str());
            push_char(out, '"');
            proof {
                assert(out@ =~= old(out)@ + jv_text(n@));
            }
        },
        JsonNode::Arr(items) => {
            let ghost vs = nodes_view(items@);
            push_char(out, '[');
            let ghost pre = out@;
            let mut i: usize = 0;
            proof {
                assert(vs.take(0) =~= Seq::<JsonV>::empty());
            }
            while i < items.len()
                invariant
                    i <= items@.len(),
                    vs == nodes_view(items@),
                    n@ == JsonV::Arr(vs),
                    pre == old(out)@.push('['),
                    out@ == pre + jv_items_text(vs.take(i as int)),
                decreases items@.len() - i,
            {
                if i > 0 {
                    push_char(out, ',');
                }
                let item = &items[i];
                proof {
                    let ghost jv = n@;
                    match jv {
                        JsonV::Arr(vs2) => {
                            assert(decreases_to!(jv => vs2));
                            assert(vs2 == vs);
                        },
                        _ => {
                            assert(false);
                        },
                    }
                    assert(decreases_to!(vs => vs[i as int]));
                    assert(item@ == vs[i as int]);
                }
                append_json(out, item);
                proof {
                    assert(vs.take(i + 1 as int).drop_last() =~= vs.take(i as int));
                    assert(vs.take(i + 1 as int).last() == vs[i as int]);
                    assert(vs[i as int] == item@);
                    if i == 0 {
                        assert(out@ =~= pre + jv_items_text(vs.take(i + 1 as int)));
                    } else {
                        assert(out@ =~= pre + jv_items_text(vs.take(i + 1 as int)));
                    }
                }
                i = i + 1;
            }
            push_char(out, ']');
            proof {
                assert(vs.take(items@.len() as int) =~= vs);
                assert(out@ =~= old(out)@ + jv_text(n@));
            }
        },
        JsonNode::Obj(pairs) => {
            let ghost vs = pairs_view(pairs@);
            push_char(out, '{');
            let ghost pre = out@;
            let mut i: usize = 0;
            proof {
                assert(vs.take(0) =~= Seq::<(Seq<char>, JsonV)>::empty());
            }
            while i < pairs.len()
                invariant
                    i <= pairs@.len(),
                    vs == pairs_view(pairs@),
                    n@ == JsonV::Obj(vs),
                    pre == old(out)@.push('{'),
                    out@ == pre + jv_pairs_text(vs.take(i as int)),
                decreases pairs@.len() - i,
            {
                if i > 0 {
                    push_char(out, ',');
                }
                let ghost mid = out@;
                let p = &pairs[i];
                push_char(out, '"');
                append_escaped(out, p.0.as_str());
                push_char(out, '"');
                push_char(out, ':');
                proof {
                    let ghost jv = n@;
                    match jv {
                        JsonV::Obj(vs2) => {
                            assert(decreases_to!(jv => vs2));
                            assert(vs2 == vs);
                        },
                        _ => {
                            assert(false);
                        },
                    }
                    assert(decreases_to!(vs => vs[i as int]));
                    assert(decreases_to!(vs[i as int] => vs[i as int].1));
                    assert(p.1@ == vs[i as int].1);
                }
                append_json(out, &p.1);
                proof {
                    assert(vs.take(i + 1 as int).drop_last() =~= vs.take(i as int));
                    assert(vs.take(i + 1 as int).last() == vs[i as int]);
                    assert(vs[i as int].0 == p.0@ && vs[i as int].1 == p.1@);
                    assert(out@ =~= mid + jv_pair_text(vs[i as int].0, vs[i as int].1));
                    assert(out@ =~= pre + jv_pairs_text(vs.take(i + 1 as int)));
                }
                i = i + 1;
            }
            push_char(out, '}');
            proof {
                assert(vs.take(pairs@.len() as int) =~= vs);
                assert(out@ =~= old(out)@ + jv_text(n@));
            }
        },
    }
}

/// Images distribute over push.
pub proof fn lemma_nodes_view_push(s: Seq<JsonNode>, x: JsonNode)
    ensures
        nodes_view(s.push(x)) == nodes_view(s).push(x.view_rec()),
{
    let a = nodes_view(s.push(x));
    let b = nodes_view(s).push(x.view_rec());
    assert forall|k: int| 0 <= k < a.len() implies a[k] == b[k] by {
        assert(a[k] == s.push(x)[k].view_rec());
        if k < s.len() {
            assert(s.push(x)[k] == s[k]);
            assert(b[k] == nodes_view(s)[k]);
            assert(nodes_view(s)[k] == s[k].view_rec());
        } else {
            assert(s.push(x)[k] == x);
        }
    }
    assert(a =~= b);
}

/// Images of pairs distribute over push.
pub proof fn lemma_pairs_view_push(s: Seq<(String, JsonNode)>, x: (String, JsonNode))
    ensures
        pairs_view(s.push(x)) == pairs_view(s).push((x.0@, x.1.view_rec())),
{
    let a = pairs_view(s.push(x));
    let b = pairs_view(s).push((x.0@, x.1.view_rec()));
    assert forall|k: int| 0 <= k < a.len() implies a[k] == b[k] by {
        assert(a[k] == (s.push(x)[k].0@, s.push(x)[k].1.view_rec()));
        if k < s.len() {
            assert(s.push(x)[k] == s[k]);
            assert(b[k] == pairs_view(s)[k]);
            assert(pairs_view(s)[k] == (s[k].0@, s[k].1.view_rec()));
        } else {
            assert(s.push(x)[k] == x);
        }
    }
    assert(a =~= b);
}

/// Deep copy of a JSON node; the copy has the same image.

pub fn clone_json(n: &JsonNode) -> (r: JsonNode)
    ensures
        r@ == n@,
    decreases n@,
{
    match n {
        JsonNode::Null => JsonNode::Null,
        JsonNode::Bool(b) => JsonNode::Bool(*b),
        JsonNode::Num(s) => JsonNode::Num(s.clone()),
        JsonNode::Str(s) => JsonNode::Str(s.clone()),
        JsonNode::Arr(items) => {
            let ghost vs = nodes_view(items@);
            let mut out: Vec<JsonNode> = Vec::new();
            let mut i: usize = 0;
            proof {
                assert(nodes_view(out@) =~= vs.take(0));
            }
            while i < items.len()
                invariant
                    i <= items@.len(),
                    vs == nodes_view(items@),
                    n@ == JsonV::Arr(vs),
                    nodes_view(out@) == vs.take(i as int),
                decreases items@.len() - i,
            {
                let item = &items[i];
                proof {
                    let ghost jv = n@;
                    match jv {
                        JsonV::Arr(vs2) => {
                            assert(decreases_to!(jv => vs2));
                            assert(vs2 == vs);
                        },
                        _ => {
                            assert(false);
                        },
                    }
                    assert(decreases_to!(vs => vs[i as int]));
                    assert(item@ == vs[i as int]);
                }
                let c = clone_json(item);
                let ghost prev = out@;
                let ghost cval = c;
                out.push(c);
                proof {
                    assert(out@ == prev.push(cval));
                    lemma_nodes_view_push(prev, cval);
                    assert(nodes_view(out@) =~= vs.take(i + 1 as int));
                }
                i = i + 1;
            }
            proof {
                assert(vs.take(items@.len() as int) =~= vs);
                assert(JsonNode::Arr(out)@ =~= n@);
            }
            JsonNode::Arr(out)
        },
        JsonNode::Obj(pairs) => {
            let ghost vs = pairs_view(pairs@);
            let mut out: Vec<(String, JsonNode)> = Vec::new();
            let mut i: usize = 0;
            proof {
                assert(pairs_view(out@) =~= vs.take(0));
            }
            while i < pairs.len()
                invariant
                    i <= pairs@.len(),
                    vs == pairs_view(pairs@),
                    n@ == JsonV::Obj(vs),
                    pairs_view(out@) == vs.take(i as int),
                decreases pairs@.len() - i,
            {
                let p = &pairs[i];
                proof {
                    let ghost jv = n@;
                    match jv {
                        JsonV::Obj(vs2) => {
                            assert(decreases_to!(jv => vs2));
                            assert(vs2 == vs);
                        },
                        _ => {
                            assert(false);
                        },
                    }
                    assert(decreases_to!(vs => vs[i as int]));
                    assert(decreases_to!(vs[i as int] => vs[i as int].1));
                    assert(p.1@ == vs[i as int].1);
                }
                let cv = clone_json(&p.1);
                let ck = p.0.clone();
                let ghost prev = out@;
                let ghost ckg = ck;
                let ghost cvg = cv;
                out.push((ck, cv));
                proof {
                    assert(p.0@ == vs[i as int].0);
                    assert(out@ == prev.push((ckg, cvg)));
                    lemma_pairs_view_push(prev, (ckg, cvg));
                    assert(pairs_view(out@) =~= vs.take(i + 1 as int));
                }
                i = i + 1;
            }
            proof {
                assert(vs.take(pairs@.len() as int) =~= vs);
                assert(JsonNode::Obj(out)@ =~= n@);
            }
            JsonNode::Obj(out)
        },
    }
}

#[verifier::external_type_specification]
#[verifier::external_body]
pub struct ExValue(serde_json::Value);

/// The JSON tree denoted by a line of text, if the line parses.
pub uninterp spec fn json_of(s: Seq<char>) -> Option<JsonV>;

/// Relies on serde_json::from_str: whether a line of text parses, and to
/// what tree, is a function of the text alone.
#[verifier::external_body]
pub fn parse_json_line(line: &str) -> (r: Option<JsonNode>)
    ensures
        r is Some <==> json_of(line@) is Some,
        r matches Some(n) ==> Some(n@) == json_of(line@),
{
    serde_json::from_str::<serde_json::Value>(line).ok().map(value_to_node)
}

/// Converts serde_json's tree into the library's own, one arm per variant,
/// moving fields; serves parse_json_line. Relies on serde_json::Number's
/// Display form for the number text.
#[verifier::external_body]
fn value_to_node(v: serde_json::Value) -> JsonNode {
    match v {
        serde_json::Value::Null => JsonNode::Null,
        serde_json::Value::Bool(b) => JsonNode::Bool(b),
        serde_json::Value::Number(n) => JsonNode::Num(n.to_string()),
        serde_json::Value::String(s) => JsonNode::Str(s),
        serde_json::Value::Array(a) => JsonNode::Arr(
            a.into_iter().map(value_to_node).collect(),
        ),
        serde_json::Value::Object(m) => JsonNode::Obj(
            m.into_iter().map(|p| (p.0, value_to_node(p.1))).collect(),
        ),
    }
}

} // verus!
