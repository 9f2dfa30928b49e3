//! The normalization writer and the dispatcher's decisions: derive the
//! project id from a working directory, turn one parsed session into its
//! canonical form and file content, and decide which source a changed path
//! belongs to and which session it maps to.

use vstd::prelude::*;

use crate::canon::{canonical_content, messages_to_content};
use crate::primary::{primary_fold, PrimaryStV, parse_jsonl_file};
use crate::codex::{codex_parse_of, parse_codex_session};
use crate::model::{
    msgs_view, MetaV, NormalizedMessage, NormalizedSession, ParseError, SessionMeta, SessionV,
};
use crate::order::{sort_by_ts, sort_messages};
use crate::pi::{dash_run, pi_parse_of, parse_pi_session};
use crate::text::{
    has_substring, join_ch, join_from, push_char, split_ch, split_str, str_contains, str_eq,
    str_ends_with, str_starts_with, strs_view,
};

verus! {

/// A whitespace character, as paths are trimmed here: blank, tab, or a line
/// break character.
pub open spec fn is_ws(c: char) -> bool {
    c == ' ' || c == '\t' || c == '\n' || c == '\r'
}

/// Leading whitespace of `s`.
pub open spec fn ws_run(s: Seq<char>) -> int
    decreases s.len(),
{
    if s.len() == 0 || !is_ws(s[0]) {
        0
    } else {
        1 + ws_run(s.drop_first())
    }
}

/// Trailing whitespace of `s`.
pub open spec fn ws_run_end(s: Seq<char>) -> int
    decreases s.len(),
{
    if s.len() == 0 || !is_ws(s.last()) {
        0
    } else {
        1 + ws_run_end(s.drop_last())
    }
}

/// `s` without leading and trailing whitespace.
pub open spec fn trimmed(s: Seq<char>) -> Seq<char> {
    let t = s.skip(ws_run(s));
    t.take(t.len() - ws_run_end(t))
}

/// A path as one dash-joined project id: separators become dashes, and one
/// dash leads.
pub open spec fn project_id_of(path: Seq<char>) -> Seq<char> {
    let t = trimmed(path);
    let n = if t.len() == 0 {
        "/"@
    } else {
        t
    };
    let mapped = n.map_values(
        |c: char|
            if c == '/' {
                '-'
            } else {
                c
            },
    );
    seq!['-'] + mapped.skip(dash_run(mapped))
}

/// Where the leading whitespace ends.
proof fn lemma_ws_run_exact(s: Seq<char>, k: int)
    requires
        0 <= k <= s.len(),
        forall|i: int| 0 <= i < k ==> is_ws(s[i]),
        k == s.len() || !is_ws(s[k]),
    ensures
        ws_run(s) == k,
    decreases k,
{
    if k > 0 {
        assert(is_ws(s[0]));
        assert(forall|i: int| 0 <= i < k - 1 ==> is_ws(#[trigger] s.drop_first()[i]));
        assert(k - 1 == s.drop_first().len() || !is_ws(s.drop_first()[k - 1]));
        lemma_ws_run_exact(s.drop_first(), k - 1);
    }
}

/// Where the trailing whitespace begins.
proof fn lemma_ws_run_end_exact(s: Seq<char>, k: int)
    requires
        0 <= k <= s.len(),
        forall|i: int| s.len() - k <= i < s.len() ==> is_ws(s[i]),
        k == s.len() || !is_ws(s[s.len() - k - 1]),
    ensures
        ws_run_end(s) == k,
    decreases k,
{
    if k > 0 {
        assert(is_ws(s.last()));
        let sd = s.drop_last();
        assert(forall|i: int| sd.len() - (k - 1) <= i < sd.len() ==> is_ws(#[trigger] sd[i]));
        assert(k - 1 == sd.len() || !is_ws(sd[sd.len() - k]));
        lemma_ws_run_end_exact(sd, k - 1);
    }
}

/// Where the dash run of `s` ends.
proof fn lemma_dash_run_exact2(s: Seq<char>, k: int)
    requires
        0 <= k <= s.len(),
        forall|i: int| 0 <= i < k ==> s[i] == '-',
        k == s.len() || s[k] != '-',
    ensures
        dash_run(s) == k,
    decreases k,
{
    if k > 0 {
        assert(s[0] == '-');
        assert(forall|i: int| 0 <= i < k - 1 ==> #[trigger] s.drop_first()[i] == '-');
        assert(k - 1 == s.drop_first().len() || s.drop_first()[k - 1] != '-');
        lemma_dash_run_exact2(s.drop_first(), k - 1);
    }
}

/// Derive the project id from a working-directory path.
pub fn project_id_from_path(path: &str) -> (r: String)
    ensures
        r@ == project_id_of(path@),
{
    let n: usize = path.unicode_len();
    let mut a: usize = 0;
    loop
        invariant
            a <= n,
            n == path@.len(),
            forall|k: int| 0 <= k < a ==> is_ws(path@[k]),
        ensures
            a <= n,
            forall|k: int| 0 <= k < a ==> is_ws(path@[k]),
            a == n || !is_ws(path@[a as int]),
        decreases n - a,
    {
        if a >= n {
            break ;
        }
        let c = path.get_char(a);
        if !(c == ' ' || c == '\t' || c == '\n' || c == '\r') {
            break ;
        }
        a = a + 1;
    }
    proof {
        lemma_ws_run_exact(path@, a as int);
    }
    let mut b: usize = n;
    loop
        invariant
            a <= b <= n,
            n == path@.len(),
            ws_run(path@) == a as int,
            a == n || !is_ws(path@[a as int]),
            forall|k: int| b <= k < n ==> is_ws(path@[k]),
        ensures
            a <= b <= n,
            forall|k: int| b <= k < n ==> is_ws(path@[k]),
            b == a || !is_ws(path@[b - 1]),
        decreases b,
    {
        if b == a {
            break ;
        }
        let c = path.get_char(b - 1);
        if !(c == ' ' || c == '\t' || c == '\n' || c == '\r') {
            break ;
        }
        b = b - 1;
    }
    let ghost t = path@.skip(a as int);
    proof {
        if b == a && a < n {
            assert(!is_ws(path@[a as int]));
            assert(is_ws(path@[a as int]));
        }
        assert(forall|k: int| t.len() - (n - b) <= k < t.len() ==> is_ws(#[trigger] t[k]));
        if b > a {
            assert(!is_ws(t[t.len() - (n - b) - 1]));
        }
        lemma_ws_run_end_exact(t, n - b);
        assert(trimmed(path@) =~= path@.subrange(a as int, b as int));
    }
    let core = path.substring_char(a, b);
    proof {
        assert(core@ == trimmed(path@));
    }
    let mut mapped: Vec<char> = Vec::new();
    if core.is_empty() {
        mapped.push('-');
        proof {
            assert("/"@ =~= seq!['/']) by {
                reveal_strlit("/");
            }
            assert(mapped@ =~= "/"@.map_values(
                |c: char|
                    if c == '/' {
                        '-'
                    } else {
                        c
                    },
            ));
        }
    } else {
        let m: usize = core.unicode_len();
        let mut i: usize = 0;
        while i < m
            invariant
                i <= m,
                m == core@.len(),
                mapped@ == core@.take(i as int).map_values(
                    |c: char|
                        if c == '/' {
                            '-'
                        } else {
                            c
                        },
                ),
            decreases m - i,
        {
            let c = core.get_char(i);
            if c == '/' {
                mapped.push('-');
            } else {
                mapped.push(c);
            }
            proof {
                assert(mapped@ =~= core@.take(i + 1 as int).map_values(
                    |c: char|
                        if c == '/' {
                            '-'
                        } else {
                            c
                        },
                ));
            }
            i = i + 1;
        }
        proof {
            assert(core@.take(m as int) =~= core@);
        }
    }
    let ghost mv = mapped@;
    let mut j: usize = 0;
    loop
        invariant
            j <= mapped@.len(),
            mv == mapped@,
            forall|k: int| 0 <= k < j ==> mapped@[k] == '-',
        ensures
            j <= mapped@.len(),
            mv == mapped@,
            forall|k: int| 0 <= k < j ==> mapped@[k] == '-',
            j == mapped@.len() || mapped@[j as int] != '-',
        decreases mapped@.len() - j,
    {
        if j >= mapped.len() {
            break ;
        }
        if mapped[j] != '-' {
            break ;
        }
        j = j + 1;
    }
    proof {
        lemma_dash_run_exact2(mv, j as int);
    }
    let mut out = String::new();
    push_char(&mut out, '-');
    let mut k: usize = j;
    proof {
        assert(out@ =~= seq!['-'] + mv.skip(j as int).take(0));
    }
    while k < mapped.len()
        invariant
            j <= k <= mapped@.len(),
            mv == mapped@,
            out@ == seq!['-'] + mv.skip(j as int).take(k - j),
        decreases mapped@.len() - k,
    {
        push_char(&mut out, mapped[k]);
        proof {
            assert(mv.skip(j as int)[k - j] == mv[k as int]);
            assert(out@ =~= seq!['-'] + mv.skip(j as int).take(k - j + 1));
        }
        k = k + 1;
    }
    proof {
        assert(mv.skip(j as int).take(mv.len() - j) =~= mv.skip(j as int));
        assert(out@ =~= project_id_of(path@));
    }
    out
}


/// The path pieces "/p0/p1..." of the leading parts.
pub open spec fn slash_concat(parts: Seq<Seq<char>>) -> Seq<char>
    decreases parts.len(),
{
    if parts.len() == 0 {
        Seq::empty()
    } else {
        slash_concat(parts.drop_last()) + seq!['/'] + parts.last()
    }
}

/// The candidate filesystem paths a project id may stand for, best first:
/// the id without its leading dashes, split at dashes, read as a path whose
/// last pieces form one dash-joined directory name; longer names first.
pub open spec fn reconstruct_cands(pid: Seq<char>) -> Seq<Seq<char>> {
    let wp = pid.skip(dash_run(pid));
    let parts = split_ch(wp, '-');
    Seq::new(
        (parts.len() - 1) as nat,
        |k: int| slash_concat(parts.take(parts.len() - 1 - k)) + seq!['/'] + join_ch(
            parts.skip(parts.len() - 1 - k),
            '-',
        ),
    )
}

/// The fallback path: every dash a separator.
pub open spec fn naive_path_of(pid: Seq<char>) -> Seq<char> {
    let wp = pid.skip(dash_run(pid));
    seq!['/'] + wp.map_values(
        |c: char|
            if c == '-' {
                '/'
            } else {
                c
            },
    )
}

/// The candidate paths a project id may stand for, best first. A caller
/// probes them in order and falls back to `naive_project_path` when none
/// exists on disk.
pub fn reconstruct_candidates(project_id: &str) -> (r: Vec<String>)
    ensures
        strs_view(r@) == reconstruct_cands(project_id@),
{
    let n: usize = project_id.unicode_len();
    let mut j: usize = 0;
    loop
        invariant
            j <= n,
            n == project_id@.len(),
            forall|k: int| 0 <= k < j ==> project_id@[k] == '-',
        ensures
            j <= n,
            forall|k: int| 0 <= k < j ==> project_id@[k] == '-',
            j == n || project_id@[j as int] != '-',
        decreases n - j,
    {
        if j >= n {
            break ;
        }
        if project_id.get_char(j) != '-' {
            break ;
        }
        j = j + 1;
    }
    proof {
        lemma_dash_run_exact2(project_id@, j as int);
    }
    let core = project_id.substring_char(j, n);
    proof {
        assert(core@ =~= project_id@.skip(j as int));
    }
    let parts = split_str(core, '-');
    let ghost pv = strs_view(parts@);
    let mut out: Vec<String> = Vec::new();
    let mut i: usize = parts.len();
    proof {
        assert(strs_view(out@) =~= reconstruct_cands(project_id@).take(0));
        assert(pv.len() == parts@.len());
    }
    while i > 1
        invariant
            1 <= i <= parts@.len() || (parts@.len() == 0 && i == 0),
            pv == strs_view(parts@),
            pv.len() == parts@.len(),
            pv == split_ch(project_id@.skip(dash_run(project_id@)), '-'),
            strs_view(out@) == reconstruct_cands(project_id@).take(pv.len() - i),
        decreases i,
    {
        i = i - 1;
        let mut cand = String::new();
        let mut t: usize = 0;
        proof {
            assert(cand@ =~= slash_concat(pv.take(0)));
        }
        while t < i
            invariant
                t <= i < parts@.len(),
                pv == strs_view(parts@),
                pv.len() == parts@.len(),
                cand@ == slash_concat(pv.take(t as int)),
            decreases i - t,
        {
            push_char(&mut cand, '/');
            cand.append(parts[t].as_str());
            proof {
                assert(pv.take(t + 1 as int).drop_last() =~= pv.take(t as int));
                assert(pv.take(t + 1 as int).last() == pv[t as int]);
                assert(cand@ =~= slash_concat(pv.take(t + 1 as int)));
            }
            t = t + 1;
        }
        push_char(&mut cand, '/');
        let joined = join_from(&parts, i, '-');
        cand.append(joined.as_str());
        let ghost cg = cand@;
        let ghost cgv = cand;
        let ghost prevout = out@;
        out.push(cand);
        proof {
            let ghost cands = reconstruct_cands(project_id@);
            assert(cands.len() == pv.len() - 1);
            assert(out@ == prevout.push(cgv));
            assert(strs_view(prevout).len() == prevout.len());
            assert(strs_view(prevout) == cands.take(pv.len() - (i + 1)));
            assert(cands.take(pv.len() - (i + 1)).len() == pv.len() - i - 1);
            assert(prevout.len() == pv.len() - i - 1);
            assert(out@.len() == pv.len() - i);
            assert(cg =~= slash_concat(pv.take(i as int)) + seq!['/'] + join_ch(
                pv.skip(i as int),
                '-',
            ));
            let ghost k = pv.len() - 1 - i;
            assert(reconstruct_cands(project_id@)[k] == cg);
            assert forall|u: int| 0 <= u < out@.len() implies strs_view(out@)[u]
                == reconstruct_cands(project_id@).take(pv.len() - i)[u] by {
                if u < prevout.len() {
                    assert(out@[u] == prevout[u]);
                    assert(strs_view(prevout)[u] == reconstruct_cands(project_id@).take(
                        pv.len() - i - 1,
                    )[u]);
                } else {
                    assert(out@[u] == cgv);
                    assert(cgv@ == cg);
                }
            }
            assert(strs_view(out@) =~= reconstruct_cands(project_id@).take(pv.len() - i));
        }
    }
    proof {
        if parts@.len() > 0 {
            assert(reconstruct_cands(project_id@).take(pv.len() - 1) =~= reconstruct_cands(
                project_id@,
            ));
        } else {
            assert(pv.len() == 0);
            assert(false) by {
                assert(split_ch(project_id@.skip(dash_run(project_id@)), '-').len() >= 1);
            }
        }
    }
    out
}

/// The fallback reconstruction: every dash a separator.
pub fn naive_project_path(project_id: &str) -> (r: String)
    ensures
        r@ == naive_path_of(project_id@),
{
    let n: usize = project_id.unicode_len();
    let mut j: usize = 0;
    loop
        invariant
            j <= n,
            n == project_id@.len(),
            forall|k: int| 0 <= k < j ==> project_id@[k] == '-',
        ensures
            j <= n,
            forall|k: int| 0 <= k < j ==> project_id@[k] == '-',
            j == n || project_id@[j as int] != '-',
        decreases n - j,
    {
        if j >= n {
            break ;
        }
        if project_id.get_char(j) != '-' {
            break ;
        }
        j = j + 1;
    }
    proof {
        lemma_dash_run_exact2(project_id@, j as int);
    }
    let ghost wp = project_id@.skip(j as int);
    let mut out = String::new();
    push_char(&mut out, '/');
    let mut k: usize = j;
    proof {
        assert(out@ =~= seq!['/'] + wp.take(0).map_values(
            |c: char|
                if c == '-' {
                    '/'
                } else {
                    c
                },
        ));
    }
    while k < n
        invariant
            j <= k <= n,
            n == project_id@.len(),
            wp == project_id@.skip(j as int),
            out@ == seq!['/'] + wp.take(k - j).map_values(
                |c: char|
                    if c == '-' {
                        '/'
                    } else {
                        c
                    },
            ),
        decreases n - k,
    {
        let c = project_id.get_char(k);
        if c == '-' {
            push_char(&mut out, '/');
        } else {
            push_char(&mut out, c);
        }
        proof {
            assert(wp[k - j] == project_id@[k as int]);
            assert(out@ =~= seq!['/'] + wp.take(k - j + 1).map_values(
                |c: char|
                    if c == '-' {
                        '/'
                    } else {
                        c
                    },
            ));
        }
        k = k + 1;
    }
    proof {
        assert(wp.take(n - j) =~= wp);
    }
    out
}


/// Ghost image of a dispatch decision.
pub ghost enum ChangedPathV {
    PiSource,
    CodexSource,
    PrimarySession { project_id: Seq<char>, session_id: Seq<char> },
    Ignored,
}

/// Where a changed file belongs: one of the three source trees, a
/// (project, session) pair in the main tree, or nowhere.
pub enum ChangedPath {
    PiSource,
    CodexSource,
    PrimarySession { project_id: String, session_id: String },
    Ignored,
}

impl View for ChangedPath {
    type V = ChangedPathV;

    open spec fn view(&self) -> ChangedPathV {
        match self {
            ChangedPath::PiSource => ChangedPathV::PiSource,
            ChangedPath::CodexSource => ChangedPathV::CodexSource,
            ChangedPath::PrimarySession { project_id, session_id } => ChangedPathV::PrimarySession {
                project_id: project_id@,
                session_id: session_id@,
            },
            ChangedPath::Ignored => ChangedPathV::Ignored,
        }
    }
}

/// The non-empty pieces of a path between separators.
pub open spec fn path_comps(parts: Seq<Seq<char>>) -> Seq<Seq<char>>
    decreases parts.len(),
{
    if parts.len() == 0 {
        Seq::empty()
    } else {
        path_comps(parts.drop_last()) + (if parts.last().len() > 0 {
            seq![parts.last()]
        } else {
            Seq::<Seq<char>>::empty()
        })
    }
}

/// Index of the first component equal to `key`, or the length.
pub open spec fn comp_idx(comps: Seq<Seq<char>>, key: Seq<char>) -> int
    decreases comps.len(),
{
    if comps.len() == 0 {
        0
    } else if comps[0] == key {
        0
    } else {
        1 + comp_idx(comps.drop_first(), key)
    }
}

/// Index of the last dot of a file name, or -1.
pub open spec fn last_dot(s: Seq<char>) -> int
    decreases s.len(),
{
    if s.len() == 0 {
        -1
    } else if s.last() == '.' {
        s.len() - 1
    } else {
        last_dot(s.drop_last())
    }
}

/// A file name without its extension; a dot that leads the name is part of
/// the name.
pub open spec fn stem_of(s: Seq<char>) -> Seq<char> {
    if last_dot(s) > 0 {
        s.take(last_dot(s))
    } else {
        s
    }
}

/// What a changed path means: only raw transcript files count; the two
/// side trees are told by their directory names; in the main tree the
/// project is the piece after "projects", the session is the file's stem,
/// or the piece after the project for a file under a subagents directory;
/// agent scratch files are ignored.
pub open spec fn classify_of(path: Seq<char>) -> ChangedPathV {
    if !(path.len() >= 6 && path.skip(path.len() - 6) == ".jsonl"@) {
        ChangedPathV::Ignored
    } else if has_substring(path, ".pi/agent/sessions"@) {
        ChangedPathV::PiSource
    } else if has_substring(path, ".codex/sessions"@) {
        ChangedPathV::CodexSource
    } else {
        let comps = path_comps(split_ch(path, '/'));
        let idx = comp_idx(comps, "projects"@);
        if idx + 2 < comps.len() {
            let project = comps[idx + 1];
            let session = if exists|k: int| 0 <= k < comps.len() && comps[k] == "subagents"@ {
                comps[idx + 2]
            } else {
                stem_of(comps.last())
            };
            if session.len() >= 6 && session.take(6) == "agent-"@ {
                ChangedPathV::Ignored
            } else {
                ChangedPathV::PrimarySession { project_id: project, session_id: session }
            }
        } else {
            ChangedPathV::Ignored
        }
    }
}

/// When a clean prefix holds no match, the first match shifts past it.
proof fn lemma_comp_idx_skip(s: Seq<Seq<char>>, key: Seq<char>, i: int)
    requires
        0 <= i <= s.len(),
        forall|k: int| 0 <= k < i ==> s[k] != key,
    ensures
        comp_idx(s, key) == i + comp_idx(s.skip(i), key),
    decreases i,
{
    if i == 0 {
        assert(s.skip(0) =~= s);
    } else {
        assert(s[0] != key);
        assert(s.drop_first() =~= s.skip(1));
        assert(forall|k: int| 0 <= k < i - 1 ==> #[trigger] s.skip(1)[k] != key);
        lemma_comp_idx_skip(s.skip(1), key, i - 1);
        assert(s.skip(1).skip(i - 1) =~= s.skip(i));
        assert(comp_idx(s, key) == 1 + comp_idx(s.skip(1), key));
    }
}

/// Where the last dot of `s` is.
proof fn lemma_last_dot(s: Seq<char>, d: int)
    requires
        -1 <= d < s.len(),
        d >= 0 ==> s[d] == '.',
        forall|k: int| d < k < s.len() ==> s[k] != '.',
    ensures
        last_dot(s) == d,
    decreases s.len(),
{
    if s.len() > 0 {
        if s.last() == '.' {
            assert(d == s.len() - 1);
        } else {
            assert(d < s.len() - 1);
            lemma_last_dot(s.drop_last(), d);
        }
    }
}

/// The stem of a file name, as executable code.
fn stem_exec(name: &str) -> (r: String)
    ensures
        r@ == stem_of(name@),
{
    let n: usize = name.unicode_len();
    let mut d: usize = n;
    loop
        invariant
            d <= n,
            n == name@.len(),
            forall|k: int| d <= k < n ==> name@[k] != '.',
        ensures
            d <= n,
            forall|k: int| d <= k < n ==> name@[k] != '.',
            d == 0 || name@[d - 1] == '.',
        decreases d,
    {
        if d == 0 {
            break ;
        }
        if name.get_char(d - 1) == '.' {
            break ;
        }
        d = d - 1;
    }
    proof {
        lemma_last_dot(name@, d - 1);
    }
    if d >= 2 {
        let r = name.substring_char(0, d - 1);
        proof {
            assert(r@ =~= name@.take(d - 1));
        }
        r.to_owned()
    } else {
        name.to_owned()
    }
}

/// Decide what a changed path means for the dispatcher.
pub fn classify_changed_path(path: &str) -> (r: ChangedPath)
    ensures
        r@ == classify_of(path@),
{
    if !str_ends_with(path, ".jsonl") {
        proof {
            reveal_strlit(".jsonl");
        }
        return ChangedPath::Ignored;
    }
    proof {
        reveal_strlit(".jsonl");
    }
    if str_contains(path, ".pi/agent/sessions") {
        return ChangedPath::PiSource;
    }
    if str_contains(path, ".codex/sessions") {
        return ChangedPath::CodexSource;
    }
    let raw = split_str(path, '/');
    let ghost rawv = strs_view(raw@);
    let mut comps: Vec<String> = Vec::new();
    let mut i: usize = 0;
    proof {
        assert(rawv.take(0) =~= Seq::<Seq<char>>::empty());
        assert(strs_view(comps@) =~= path_comps(rawv.take(0)));
    }
    while i < raw.len()
        invariant
            i <= raw@.len(),
            rawv == strs_view(raw@),
            rawv.len() == raw@.len(),
            strs_view(comps@) == path_comps(rawv.take(i as int)),
        decreases raw@.len() - i,
    {
        proof {
            assert(raw@[i as int]@ == rawv[i as int]);
        }
        if !raw[i].as_str().is_empty() {
            let c = raw[i].clone();
            let ghost cgv = c;
            let ghost prev = comps@;
            comps.push(c);
            proof {
                assert(comps@ == prev.push(cgv));
                assert forall|u: int| 0 <= u < comps@.len() implies strs_view(comps@)[u]
                    == path_comps(rawv.take(i + 1 as int))[u] by {
                    assert(rawv.take(i + 1 as int).drop_last() =~= rawv.take(i as int));
                    assert(rawv.take(i + 1 as int).last() == rawv[i as int]);
                    if u < prev.len() {
                        assert(comps@[u] == prev[u]);
                    } else {
                        assert(comps@[u] == cgv);
                    }
                }
                assert(rawv.take(i + 1 as int).drop_last() =~= rawv.take(i as int));
                assert(rawv.take(i + 1 as int).last() == rawv[i as int]);
                assert(strs_view(comps@).len() == path_comps(rawv.take(i + 1 as int)).len());
                assert(strs_view(comps@) =~= path_comps(rawv.take(i + 1 as int)));
            }
        } else {
            proof {
                assert(rawv.take(i + 1 as int).drop_last() =~= rawv.take(i as int));
                assert(rawv.take(i + 1 as int).last() == rawv[i as int]);
                assert(strs_view(comps@) =~= path_comps(rawv.take(i + 1 as int)));
            }
        }
        i = i + 1;
    }
    proof {
        assert(rawv.take(raw@.len() as int) =~= rawv);
    }
    let ghost cv = strs_view(comps@);
    let mut idx: usize = 0;
    loop
        invariant
            idx <= comps@.len(),
            cv == strs_view(comps@),
            cv.len() == comps@.len(),
            forall|k: int| 0 <= k < idx ==> cv[k] != "projects"@,
        ensures
            idx <= comps@.len(),
            cv == strs_view(comps@),
            forall|k: int| 0 <= k < idx ==> cv[k] != "projects"@,
            idx == comps@.len() || cv[idx as int] == "projects"@,
        decreases comps@.len() - idx,
    {
        if idx >= comps.len() {
            break ;
        }
        if str_eq(comps[idx].as_str(), "projects") {
            proof {
                assert(cv[idx as int] == comps@[idx as int]@);
            }
            break ;
        }
        proof {
            assert(cv[idx as int] == comps@[idx as int]@);
        }
        idx = idx + 1;
    }
    proof {
        lemma_comp_idx_skip(cv, "projects"@, idx as int);
        if idx < comps@.len() {
            assert(cv.skip(idx as int)[0] == cv[idx as int]);
            assert(comp_idx(cv, "projects"@) == idx);
        } else {
            assert(comp_idx(cv, "projects"@) == idx + comp_idx(cv.skip(idx as int), "projects"@));
            assert(cv.skip(idx as int).len() == 0);
            assert(comp_idx(cv, "projects"@) == idx);
        }
    }
    if idx >= comps.len() || comps.len() - idx < 3 {
        return ChangedPath::Ignored;
    }
    let project: String = comps[idx + 1].clone();
    let mut has_sub: bool = false;
    let mut k: usize = 0;
    loop
        invariant
            k <= comps@.len(),
            cv == strs_view(comps@),
            cv.len() == comps@.len(),
            has_sub ==> exists|t: int| 0 <= t < cv.len() && cv[t] == "subagents"@,
            !has_sub ==> forall|t: int| 0 <= t < k ==> cv[t] != "subagents"@,
        ensures
            cv == strs_view(comps@),
            has_sub <==> exists|t: int| 0 <= t < cv.len() && cv[t] == "subagents"@,
        decreases comps@.len() - k,
    {
        if k >= comps.len() {
            break ;
        }
        if str_eq(comps[k].as_str(), "subagents") {
            proof {
                assert(cv[k as int] == comps@[k as int]@);
            }
            has_sub = true;
            break ;
        }
        proof {
            assert(cv[k as int] == comps@[k as int]@);
        }
        k = k + 1;
    }
    let session: String = if has_sub {
        comps[idx + 2].clone()
    } else {
        stem_exec(comps[comps.len() - 1].as_str())
    };
    proof {
        assert(cv[idx + 2] == comps@[idx + 2]@);
        assert(cv[cv.len() - 1] == comps@[comps@.len() - 1]@);
    }
    if str_starts_with(session.as_str(), "agent-") {
        proof {
            reveal_strlit("agent-");
        }
        return ChangedPath::Ignored;
    }
    proof {
        reveal_strlit("agent-");
    }
    ChangedPath::PrimarySession { project_id: project, session_id: session }
}


/// The canonical file path of a session.
pub open spec fn canon_path_of(dir: Seq<char>, id: Seq<char>) -> Seq<char> {
    dir + seq!['/'] + id + ".jsonl"@
}

/// Build the canonical file path of a session.
pub fn canon_path(dir: &str, id: &str) -> (r: String)
    ensures
        r@ == canon_path_of(dir@, id@),
{
    let mut out = String::new();
    out.append(dir);
    out.append("/");
    out.append(id);
    out.append(".jsonl");
    proof {
        reveal_strlit("/");
        assert(out@ =~= canon_path_of(dir@, id@));
    }
    out
}

/// What normalizing a session-log file yields: nothing when the filename
/// carries no id or the parse yields no messages; else the full session and
/// its canonical file content.
pub open spec fn normalize_codex_of(filename: Seq<char>, lines: Seq<Seq<char>>, dir: Seq<char>) -> Option<
    (SessionV, Seq<char>),
> {
    match codex_parse_of(filename, lines) {
        None => None,
        Some((cm, msgs)) => if msgs.len() == 0 {
            None
        } else {
            let project = if cm.cwd.len() == 0 {
                "codex"@
            } else {
                project_id_of(cm.cwd)
            };
            let meta = MetaV {
                id: cm.id,
                project: project,
                title: None,
                created_at: msgs[0].timestamp,
                updated_at: msgs[msgs.len() - 1].timestamp,
                message_count: msgs.len() as int,
                last_memory_uuid: None,
                source: "codex"@,
            };
            Some(
                (
                    SessionV {
                        meta: meta,
                        messages: msgs,
                        normalized_path: canon_path_of(dir, cm.id),
                    },
                    canonical_content(msgs),
                ),
            )
        },
    }
}

/// Normalize one session-log file: parse, derive the project id from the
/// working directory, and render the canonical file content. Fails exactly
/// when the filename carries no session id or the parse yields no messages;
/// an empty session is never persisted.
pub fn normalize_codex(filename: &str, lines: &Vec<String>, normalized_dir: &str) -> (r: Result<
    (NormalizedSession, String),
    ParseError,
>)
    ensures
        r is Ok <==> normalize_codex_of(filename@, strs_view(lines@), normalized_dir@) is Some,
        r matches Ok((s, c)) ==> Some(((s@, c@))) == normalize_codex_of(
            filename@,
            strs_view(lines@),
            normalized_dir@,
        ),
        r matches Err(e) ==> (e is InvalidFilename <==> codex_parse_of(
            filename@,
            strs_view(lines@),
        ) is None),
{
    let (cmeta, msgs) = match parse_codex_session(filename, lines) {
        Ok(p) => p,
        Err(e) => {
            return Err(e);
        },
    };
    if msgs.len() == 0 {
        return Err(ParseError::EmptySession);
    }
    let project: String = if cmeta.cwd.as_str().is_empty() {
        String::from_str("codex")
    } else {
        project_id_from_path(cmeta.cwd.as_str())
    };
    let mut meta = crate::codex::to_session_meta(&cmeta, project.as_str(), msgs.len());
    meta.created_at = msgs[0].timestamp.clone();
    meta.updated_at = msgs[msgs.len() - 1].timestamp.clone();
    let path = canon_path(normalized_dir, cmeta.id.as_str());
    let content = messages_to_content(&msgs);
    proof {
        assert(msgs_view(msgs@)[0] == msgs@[0]@);
        assert(msgs_view(msgs@)[msgs@.len() - 1] == msgs@[msgs@.len() - 1]@);
    }
    let session = NormalizedSession { meta, messages: msgs, normalized_path: path };
    Ok((session, content))
}

/// What normalizing a tree-format file yields: nothing when the current
/// branch yields no messages.
pub open spec fn normalize_pi_of(filename: Seq<char>, lines: Seq<Seq<char>>, dir: Seq<char>) -> Option<
    (SessionV, Seq<char>),
> {
    let (pm, msgs) = pi_parse_of(filename, lines);
    if msgs.len() == 0 {
        None
    } else {
        let project = if pm.cwd.len() == 0 {
            "pi"@
        } else {
            project_id_of(pm.cwd)
        };
        let meta = MetaV {
            id: pm.id,
            project: project,
            title: None,
            created_at: msgs[0].timestamp,
            updated_at: msgs[msgs.len() - 1].timestamp,
            message_count: msgs.len() as int,
            last_memory_uuid: None,
            source: "pi"@,
        };
        Some(
            (
                SessionV { meta: meta, messages: msgs, normalized_path: canon_path_of(dir, pm.id) },
                canonical_content(msgs),
            ),
        )
    }
}

/// Normalize one tree-format file. Fails exactly when the current branch
/// yields no messages.
pub fn normalize_pi(filename: &str, lines: &Vec<String>, normalized_dir: &str) -> (r: Result<
    (NormalizedSession, String),
    ParseError,
>)
    ensures
        r is Ok <==> normalize_pi_of(filename@, strs_view(lines@), normalized_dir@) is Some,
        r matches Ok((s, c)) ==> Some(((s@, c@))) == normalize_pi_of(
            filename@,
            strs_view(lines@),
            normalized_dir@,
        ),
        r matches Err(e) ==> e is EmptySession,
{
    let (pmeta, msgs) = parse_pi_session(filename, lines);
    if msgs.len() == 0 {
        return Err(ParseError::EmptySession);
    }
    let project: String = if pmeta.cwd.as_str().is_empty() {
        String::from_str("pi")
    } else {
        project_id_from_path(pmeta.cwd.as_str())
    };
    let mut meta = crate::pi::to_session_meta(&pmeta, project.as_str(), msgs.len());
    meta.created_at = msgs[0].timestamp.clone();
    meta.updated_at = msgs[msgs.len() - 1].timestamp.clone();
    let path = canon_path(normalized_dir, pmeta.id.as_str());
    let content = messages_to_content(&msgs);
    proof {
        assert(msgs_view(msgs@)[0] == msgs@[0]@);
        assert(msgs_view(msgs@)[msgs@.len() - 1] == msgs@[msgs@.len() - 1]@);
    }
    let session = NormalizedSession { meta, messages: msgs, normalized_path: path };
    Ok((session, content))
}

/// The images of the side files: name and lines of each.
pub open spec fn subs_view(s: Seq<(String, Vec<String>)>) -> Seq<(Seq<char>, Seq<Seq<char>>)> {
    s.map_values(|p: (String, Vec<String>)| (p.0@, strs_view(p.1@)))
}

/// Fold the side files into the state: files whose names hint at throwaway
/// suggestion content are skipped wholesale; each other file is folded with
/// a fresh exclusion set.
pub open spec fn primary_subs_fold(st: PrimaryStV, subs: Seq<(Seq<char>, Seq<Seq<char>>)>) -> PrimaryStV
    decreases subs.len(),
{
    if subs.len() == 0 {
        st
    } else {
        let prev = primary_subs_fold(st, subs.drop_last());
        if has_substring(subs.last().0, "suggestion"@) {
            prev
        } else {
            primary_fold(
                PrimaryStV { msgs: prev.msgs, title: prev.title, skips: Set::empty() },
                subs.last().1,
                subs.last().0,
            )
        }
    }
}

/// What normalizing a main-tree session yields: the main file and its side
/// files merged id-keyed, the messages sorted by timestamp, and the title
/// taken from the latest summary record, if any.
pub open spec fn normalize_primary_of(
    project_id: Seq<char>,
    session_id: Seq<char>,
    main: Seq<Seq<char>>,
    subs: Seq<(Seq<char>, Seq<Seq<char>>)>,
    dir: Seq<char>,
) -> Option<(SessionV, Seq<char>)> {
    let st0 = PrimaryStV { msgs: Seq::empty(), title: None, skips: Set::empty() };
    let st1 = primary_fold(st0, main, session_id + ".jsonl"@);
    let stn = primary_subs_fold(st1, subs);
    let sorted = sort_by_ts(stn.msgs);
    if sorted.len() == 0 {
        None
    } else {
        let meta = MetaV {
            id: session_id,
            project: project_id,
            title: stn.title,
            created_at: sorted[0].timestamp,
            updated_at: sorted[sorted.len() - 1].timestamp,
            message_count: sorted.len() as int,
            last_memory_uuid: None,
            source: "primary"@,
        };
        Some(
            (
                SessionV {
                    meta: meta,
                    messages: sorted,
                    normalized_path: canon_path_of(dir, session_id),
                },
                canonical_content(sorted),
            ),
        )
    }
}

/// Normalize one main-tree session from its main file and subagent side
/// files (name and lines of each, in the order the caller lists them).
/// Fails exactly when no messages remain after filtering.
pub fn normalize_primary(
    project_id: &str,
    session_id: &str,
    main_lines: &Vec<String>,
    sub_files: &Vec<(String, Vec<String>)>,
    normalized_dir: &str,
) -> (r: Result<(NormalizedSession, String), ParseError>)
    ensures
        r is Ok <==> normalize_primary_of(
            project_id@,
            session_id@,
            strs_view(main_lines@),
            subs_view(sub_files@),
            normalized_dir@,
        ) is Some,
        r matches Ok((s, c)) ==> Some(((s@, c@))) == normalize_primary_of(
            project_id@,
            session_id@,
            strs_view(main_lines@),
            subs_view(sub_files@),
            normalized_dir@,
        ),
        r matches Err(e) ==> e is EmptySession,
{
    let mut main_name = String::new();
    main_name.append(session_id);
    main_name.append(".jsonl");
    proof {
        assert(main_name@ =~= session_id@ + ".jsonl"@);
    }
    let mut msgs: Vec<NormalizedMessage> = Vec::new();
    let mut title: Option<String> = None;
    proof {
        assert(msgs_view(msgs@) =~= Seq::<crate::model::MsgV>::empty());
    }
    parse_jsonl_file(&mut msgs, &mut title, main_lines, main_name.as_str());
    let ghost st1 = primary_fold(
        PrimaryStV { msgs: Seq::empty(), title: None, skips: Set::empty() },
        strs_view(main_lines@),
        session_id@ + ".jsonl"@,
    );
    let ghost sv = subs_view(sub_files@);
    let mut i: usize = 0;
    proof {
        assert(sv.take(0) =~= Seq::<(Seq<char>, Seq<Seq<char>>)>::empty());
    }
    while i < sub_files.len()
        invariant
            i <= sub_files@.len(),
            sv == subs_view(sub_files@),
            sv.len() == sub_files@.len(),
            ({
                let st = primary_subs_fold(st1, sv.take(i as int));
                msgs_view(msgs@) == st.msgs && (match title {
                    Some(ref t) => Some(t@),
                    None => None::<Seq<char>>,
                }) == st.title
            }),
        decreases sub_files@.len() - i,
    {
        proof {
            assert(sv[i as int] == (sub_files@[i as int].0@, strs_view(sub_files@[i as int].1@)));
        }
        if !str_contains(sub_files[i].0.as_str(), "suggestion") {
            parse_jsonl_file(&mut msgs, &mut title, &sub_files[i].1, sub_files[i].0.as_str());
        }
        proof {
            reveal_strlit("suggestion");
            assert(sv.take(i + 1 as int).drop_last() =~= sv.take(i as int));
            assert(sv.take(i + 1 as int).last() == sv[i as int]);
        }
        i = i + 1;
    }
    proof {
        assert(sv.take(sub_files@.len() as int) =~= sv);
    }
    let sorted = sort_messages(msgs);
    if sorted.len() == 0 {
        return Err(ParseError::EmptySession);
    }
    let meta = SessionMeta {
        id: session_id.to_owned(),
        project: project_id.to_owned(),
        title,
        created_at: sorted[0].timestamp.clone(),
        updated_at: sorted[sorted.len() - 1].timestamp.clone(),
        message_count: sorted.len(),
        last_memory_uuid: None,
        source: String::from_str("primary"),
    };
    let path = canon_path(normalized_dir, session_id);
    let content = messages_to_content(&sorted);
    proof {
        assert(msgs_view(sorted@)[0] == sorted@[0]@);
        assert(msgs_view(sorted@)[sorted@.len() - 1] == sorted@[sorted@.len() - 1]@);
    }
    let session = NormalizedSession { meta, messages: sorted, normalized_path: path };
    Ok((session, content))
}


/// Idempotence: normalizing an unchanged raw file again yields the same
/// session — the same message ids — and byte-identical canonical content,
/// for each of the three source formats.
pub proof fn lemma_normalize_idempotent(
    filename: Seq<char>,
    lines1: Seq<Seq<char>>,
    lines2: Seq<Seq<char>>,
    dir: Seq<char>,
    r1: (SessionV, Seq<char>),
    r2: (SessionV, Seq<char>),
)
    requires
        lines1 == lines2,
        Some(r1) == normalize_codex_of(filename, lines1, dir) || Some(r1) == normalize_pi_of(
            filename,
            lines1,
            dir,
        ),
        Some(r1) == normalize_codex_of(filename, lines1, dir) ==> Some(r2) == normalize_codex_of(
            filename,
            lines2,
            dir,
        ),
        Some(r1) == normalize_pi_of(filename, lines1, dir) ==> Some(r2) == normalize_pi_of(
            filename,
            lines2,
            dir,
        ),
    ensures
        r1 == r2,
        r1.1 == r2.1,
        forall|k: int|
            0 <= k < r1.0.messages.len() ==> r1.0.messages[k].uuid == #[trigger] r2.0.messages[k].uuid,
{
}

/// Idempotence for the main-tree format: re-normalizing the same main file
/// and side files yields the same session and byte-identical content.
pub proof fn lemma_normalize_idempotent_primary(
    project_id: Seq<char>,
    session_id: Seq<char>,
    main1: Seq<Seq<char>>,
    main2: Seq<Seq<char>>,
    subs1: Seq<(Seq<char>, Seq<Seq<char>>)>,
    subs2: Seq<(Seq<char>, Seq<Seq<char>>)>,
    dir: Seq<char>,
    r1: (SessionV, Seq<char>),
    r2: (SessionV, Seq<char>),
)
    requires
        main1 == main2,
        subs1 == subs2,
        Some(r1) == normalize_primary_of(project_id, session_id, main1, subs1, dir),
        Some(r2) == normalize_primary_of(project_id, session_id, main2, subs2, dir),
    ensures
        r1 == r2,
        r1.1 == r2.1,
{
}


/// The root directories the engine works over: one per raw source tree,
/// plus the output root for canonical files. Paths are plain text; the
/// caller creates missing directories.
pub struct WatchConfig {
    pub primary_projects_dir: String,
    pub codex_sessions_dir: String,
    pub pi_sessions_dir: String,
    pub normalized_dir: String,
}

impl WatchConfig {
    /// The conventional layout under a home directory.
    pub fn from_home(home: &str) -> (r: WatchConfig)
        ensures
            r.primary_projects_dir@ == home@ + "/.primary/projects"@,
            r.codex_sessions_dir@ == home@ + "/.codex/sessions"@,
            r.pi_sessions_dir@ == home@ + "/.pi/agent/sessions"@,
            r.normalized_dir@ == home@ + "/sessions"@,
    {
        let mut a = String::new();
        a.append(home);
        a.append("/.primary/projects");
        let mut b = String::new();
        b.append(home);
        b.append("/.codex/sessions");
        let mut c = String::new();
        c.append(home);
        c.append("/.pi/agent/sessions");
        let mut d = String::new();
        d.append(home);
        d.append("/sessions");
        proof {
            assert(a@ =~= home@ + "/.primary/projects"@);
            assert(b@ =~= home@ + "/.codex/sessions"@);
            assert(c@ =~= home@ + "/.pi/agent/sessions"@);
            assert(d@ =~= home@ + "/sessions"@);
        }
        WatchConfig {
            primary_projects_dir: a,
            codex_sessions_dir: b,
            pi_sessions_dir: c,
            normalized_dir: d,
        }
    }
}

} // verus!
