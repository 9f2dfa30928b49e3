//! Session activity tracking and the terminal-session registry: the parts
//! of session management that are pure bookkeeping. Process control itself
//! (spawning and signalling terminal sessions) lives outside the library;
//! callers feed in the current time as milliseconds.

use vstd::prelude::*;

use crate::text::{dec_text, push_char, str_eq, u64_to_string};

verus! {

/// How long (in milliseconds) after its last write a session counts as
/// active.
pub open spec fn active_window_ms() -> int {
    60_000
}

/// Index of the first entry with this id, or the length.
pub open spec fn act_find(s: Seq<(Seq<char>, int)>, id: Seq<char>) -> int
    decreases s.len(),
{
    if s.len() == 0 {
        0
    } else if s[0].0 == id {
        0
    } else {
        1 + act_find(s.drop_first(), id)
    }
}

/// The images of the tracked entries.
pub open spec fn acts_view(s: Seq<(String, u64)>) -> Seq<(Seq<char>, int)> {
    s.map_values(|p: (String, u64)| (p.0@, p.1 as int))
}

/// Track when each session was last written, as a hint for consumers that
/// prioritize hot sessions.
pub struct ActivityTracker {
    /// Session id and the time of its last write, in unix milliseconds.
    pub last_modified: Vec<(String, u64)>,
}

/// The entries that survive a cleanup at time `now`.
pub open spec fn fresh_entries(s: Seq<(Seq<char>, int)>, now: int) -> Seq<(Seq<char>, int)>
    decreases s.len(),
{
    if s.len() == 0 {
        Seq::empty()
    } else {
        fresh_entries(s.drop_last(), now) + (if now - s.last().1 < 2 * active_window_ms() {
            seq![s.last()]
        } else {
            Seq::<(Seq<char>, int)>::empty()
        })
    }
}

impl ActivityTracker {
    /// An empty tracker.
    pub fn new() -> (r: ActivityTracker)
        ensures
            acts_view(r.last_modified@) == Seq::<(Seq<char>, int)>::empty(),
    {
        let r = ActivityTracker { last_modified: Vec::new() };
        proof {
            assert(acts_view(r.last_modified@) =~= Seq::<(Seq<char>, int)>::empty());
        }
        r
    }

    /// Find a session's entry.
    fn find(&self, session_id: &str) -> (r: usize)
        ensures
            r as int == act_find(acts_view(self.last_modified@), session_id@),
            r <= self.last_modified@.len(),
            r < self.last_modified@.len() ==> acts_view(self.last_modified@)[r as int].0
                == session_id@,
    {
        let ghost vs = acts_view(self.last_modified@);
        let mut i: usize = 0;
        proof {
            assert(vs.skip(0) =~= vs);
            lemma_act_find_skip(vs, session_id@, 0);
        }
        loop
            invariant
                i <= self.last_modified@.len(),
                vs == acts_view(self.last_modified@),
                vs.len() == self.last_modified@.len(),
                act_find(vs, session_id@) == i + act_find(vs.skip(i as int), session_id@),
                forall|k: int| 0 <= k < i ==> vs[k].0 != session_id@,
            ensures
                vs == acts_view(self.last_modified@),
                i as int == act_find(vs, session_id@),
                i <= vs.len(),
                i < vs.len() ==> vs[i as int].0 == session_id@,
            decreases self.last_modified@.len() - i,
        {
            if i >= self.last_modified.len() {
                proof {
                    assert(vs.skip(i as int).len() == 0);
                }
                break ;
            }
            proof {
                assert(vs[i as int] == (
                    self.last_modified@[i as int].0@,
                    self.last_modified@[i as int].1 as int,
                ));
            }
            if str_eq(self.last_modified[i].0.as_str(), session_id) {
                proof {
                    assert(vs.skip(i as int)[0] == vs[i as int]);
                }
                break ;
            }
            proof {
                assert(vs.skip(i as int)[0] == vs[i as int]);
                assert(vs.skip(i as int).drop_first() =~= vs.skip(i + 1 as int));
            }
            i = i + 1;
        }
        i
    }

    /// Record a write to this session at time `now_ms`.
    pub fn mark_active(&mut self, session_id: &str, now_ms: u64)
        ensures
            ({
                let vs = acts_view(old(self).last_modified@);
                let i = act_find(vs, session_id@);
                if i < vs.len() {
                    acts_view(final(self).last_modified@) == vs.update(
                        i,
                        (session_id@, now_ms as int),
                    )
                } else {
                    acts_view(final(self).last_modified@) == vs.push((session_id@, now_ms as int))
                }
            }),
    {
        let ghost vs = acts_view(self.last_modified@);
        let i = self.find(session_id);
        if i < self.last_modified.len() {
            let ghost prev = self.last_modified@;
            self.last_modified.set(i, (session_id.to_owned(), now_ms));
            proof {
                assert forall|t: int|
                    0 <= t < self.last_modified@.len() implies #[trigger] acts_view(
                    self.last_modified@,
                )[t] == vs.update(i as int, (session_id@, now_ms as int))[t] by {
                    if t != i {
                        assert(self.last_modified@[t] == prev[t]);
                    }
                }
                assert(acts_view(self.last_modified@) =~= vs.update(
                    i as int,
                    (session_id@, now_ms as int),
                ));
            }
        } else {
            let ghost prev = self.last_modified@;
            self.last_modified.push((session_id.to_owned(), now_ms));
            proof {
                assert forall|t: int|
                    0 <= t < self.last_modified@.len() implies #[trigger] acts_view(
                    self.last_modified@,
                )[t] == vs.push((session_id@, now_ms as int))[t] by {
                    if t < prev.len() {
                        assert(self.last_modified@[t] == prev[t]);
                    }
                }
                assert(acts_view(self.last_modified@) =~= vs.push((session_id@, now_ms as int)));
            }
        }
    }

    /// Was this session written within the active window before `now_ms`?
    pub fn is_active(&self, session_id: &str, now_ms: u64) -> (r: bool)
        ensures
            ({
                let vs = acts_view(self.last_modified@);
                let i = act_find(vs, session_id@);
                r == (i < vs.len() && now_ms - vs[i].1 < active_window_ms())
            }),
    {
        let i = self.find(session_id);
        if i < self.last_modified.len() {
            let t = self.last_modified[i].1;
            proof {
                assert(acts_view(self.last_modified@)[i as int].1 == t as int);
            }
            if now_ms >= t {
                now_ms - t < 60_000
            } else {
                proof {
                    assert((now_ms as int) - (t as int) < active_window_ms());
                }
                true
            }
        } else {
            false
        }
    }

    /// Drop entries older than twice the active window.
    pub fn cleanup_stale(&mut self, now_ms: u64)
        ensures
            acts_view(final(self).last_modified@) == fresh_entries(
                acts_view(old(self).last_modified@),
                now_ms as int,
            ),
    {
        let ghost vs = acts_view(self.last_modified@);
        let ghost total = vs.len();
        let mut kept: Vec<(String, u64)> = Vec::new();
        let mut rest = Vec::new();
        core::mem::swap(&mut rest, &mut self.last_modified);
        proof {
            assert(acts_view(rest@) =~= vs.skip(0));
            assert(acts_view(kept@) =~= fresh_entries(vs.take(0), now_ms as int));
        }
        loop
            invariant
                acts_view(rest@) == vs.skip(total - rest@.len()),
                acts_view(kept@) == fresh_entries(vs.take(total - rest@.len()), now_ms as int),
                rest@.len() <= total,
                total == vs.len(),
            ensures
                rest@.len() == 0,
                acts_view(kept@) == fresh_entries(vs, now_ms as int),
            decreases rest@.len(),
        {
            if rest.len() == 0 {
                proof {
                    assert(vs.take(total - rest@.len()) =~= vs);
                }
                break ;
            }
            let ghost k = total - rest@.len();
            let ghost prevrest = rest@;
            let entry = rest.remove(0);
            let ghost eg = entry;
            proof {
                assert(rest@ =~= prevrest.drop_first());
                assert(acts_view(prevrest)[0] == (prevrest[0].0@, prevrest[0].1 as int));
                assert((eg.0@, eg.1 as int) == vs[k]);
                assert forall|t: int|
                    0 <= t < rest@.len() implies #[trigger] acts_view(rest@)[t] == vs.skip(
                    k + 1,
                )[t] by {
                    assert(rest@[t] == prevrest[t + 1]);
                    assert(acts_view(prevrest)[t + 1] == (
                        prevrest[t + 1].0@,
                        prevrest[t + 1].1 as int,
                    ));
                    assert(acts_view(prevrest)[t + 1] == vs.skip(k)[t + 1]);
                }
                assert(acts_view(rest@) =~= vs.skip(k + 1));
            }
            let keep: bool = if now_ms >= entry.1 {
                now_ms - entry.1 < 120_000
            } else {
                proof {
                    assert((now_ms as int) - (eg.1 as int) < 2 * active_window_ms());
                }
                true
            };
            proof {
                assert(keep == (now_ms as int - vs[k].1 < 2 * active_window_ms()));
                assert(vs.take(k + 1).drop_last() =~= vs.take(k));
                assert(vs.take(k + 1).last() == vs[k]);
            }
            if keep {
                let ghost prevkept = kept@;
                kept.push(entry);
                proof {
                    assert(kept@ == prevkept.push(eg));
                    assert(acts_view(prevkept).len() == prevkept.len());
                    assert forall|t: int|
                        0 <= t < kept@.len() implies #[trigger] acts_view(kept@)[t]
                        == fresh_entries(vs.take(k + 1), now_ms as int)[t] by {
                        if t < prevkept.len() {
                            assert(kept@[t] == prevkept[t]);
                            assert(acts_view(prevkept)[t] == fresh_entries(
                                vs.take(k),
                                now_ms as int,
                            )[t]);
                        } else {
                            assert(kept@[t] == eg);
                        }
                    }
                    assert(acts_view(kept@) =~= fresh_entries(vs.take(k + 1), now_ms as int));
                }
            } else {
                proof {
                    assert(acts_view(kept@) =~= fresh_entries(vs.take(k + 1), now_ms as int));
                }
            }
        }
        self.last_modified = kept;
    }
}

/// Splitting the search at a clean prefix shifts the found index.
proof fn lemma_act_find_skip(s: Seq<(Seq<char>, int)>, id: Seq<char>, i: int)
    requires
        0 <= i <= s.len(),
        forall|k: int| 0 <= k < i ==> s[k].0 != id,
    ensures
        act_find(s, id) == i + act_find(s.skip(i), id),
    decreases i,
{
    if i == 0 {
        assert(s.skip(0) =~= s);
    } else {
        assert(s[0].0 != id);
        assert(s.drop_first() =~= s.skip(1));
        assert(forall|k: int| 0 <= k < i - 1 ==> #[trigger] s.skip(1)[k].0 != id);
        lemma_act_find_skip(s.skip(1), id, i - 1);
        assert(s.skip(1).skip(i - 1) =~= s.skip(i));
        assert(act_find(s, id) == 1 + act_find(s.skip(1), id));
    }
}

/// May this session id be embedded in shell commands and file names?
pub open spec fn safe_session_id(s: Seq<char>) -> bool {
    s.len() > 0 && forall|i: int|
        0 <= i < s.len() ==> ('a' <= #[trigger] s[i] <= 'z' || 'A' <= s[i] <= 'Z' || '0' <= s[i]
            <= '9' || s[i] == '-' || s[i] == '_')
}

/// Accept only non-empty ids of ASCII letters, digits, dashes and
/// underscores.
pub fn is_safe_session_id(s: &str) -> (r: bool)
    ensures
        r == safe_session_id(s@),
{
    let n: usize = s.unicode_len();
    if n == 0 {
        return false;
    }
    let mut i: usize = 0;
    loop
        invariant
            i <= n,
            n == s@.len(),
            n > 0,
            forall|k: int|
                0 <= k < i ==> ('a' <= #[trigger] s@[k] <= 'z' || 'A' <= s@[k] <= 'Z' || '0'
                    <= s@[k] <= '9' || s@[k] == '-' || s@[k] == '_'),
        ensures
            i <= n,
            forall|k: int|
                0 <= k < i ==> ('a' <= #[trigger] s@[k] <= 'z' || 'A' <= s@[k] <= 'Z' || '0'
                    <= s@[k] <= '9' || s@[k] == '-' || s@[k] == '_'),
            i == n || !('a' <= s@[i as int] <= 'z' || 'A' <= s@[i as int] <= 'Z' || '0'
                <= s@[i as int] <= '9' || s@[i as int] == '-' || s@[i as int] == '_'),
        decreases n - i,
    {
        if i >= n {
            break ;
        }
        let c = s.get_char(i);
        if !(('a' <= c && c <= 'z') || ('A' <= c && c <= 'Z') || ('0' <= c && c <= '9') || c == '-'
            || c == '_') {
            break ;
        }
        i = i + 1;
    }
    i == n
}

/// Today's date as "YYYY-MM-DD" from a unix-second count, by the flat
/// 365-day-year, 30-day-month approximation its consumer expects.
pub open spec fn flat_date_of(secs: int) -> (int, int, int) {
    let days = secs / 86400;
    let years = days / 365 + 1970;
    let rem = days % 365;
    let month0 = rem / 30 + 1;
    let day0 = rem % 30 + 1;
    (years, if month0 <= 12 {
        month0
    } else {
        12
    }, if day0 <= 31 {
        day0
    } else {
        31
    })
}

/// Zero-padded decimal text.
pub open spec fn zpad(s: Seq<char>, w: int) -> Seq<char>
    decreases w - s.len(),
{
    if s.len() >= w || w <= 0 {
        s
    } else {
        zpad(seq!['0'] + s, w)
    }
}

/// Append `n` zero-padded to `w` digits.
fn append_u64_pad(out: &mut String, n: u64, w: usize)
    requires
        w <= 8,
    ensures
        final(out)@ == old(out)@ + zpad(dec_text(n as nat), w as int),
{
    let s = u64_to_string(n);
    let len: usize = s.as_str().unicode_len();
    let mut padded = String::new();
    let mut k: usize = len;
    proof {
        assert(padded@ =~= zpad_partial(dec_text(n as nat), len as int, len as int));
    }
    while k < w
        invariant
            len <= k <= w || (k == len && len >= w),
            len == dec_text(n as nat).len(),
            w <= 8,
            padded@ == zpad_partial(dec_text(n as nat), len as int, k as int),
        decreases w - k,
    {
        push_char(&mut padded, '0');
        proof {
            assert(padded@ =~= zpad_partial(dec_text(n as nat), len as int, k + 1 as int));
        }
        k = k + 1;
    }
    padded.append(s.as_str());
    proof {
        lemma_zpad(dec_text(n as nat), len as int, if w >= len {
            w as int
        } else {
            len as int
        });
        if w < len {
            assert(zpad(dec_text(n as nat), w as int) == dec_text(n as nat));
        }
    }
    out.append(padded.as_str());
    proof {
        assert(out@ =~= old(out)@ + zpad(dec_text(n as nat), w as int));
    }
}

/// The zeros written so far, before the digits.
pub open spec fn zpad_partial(s: Seq<char>, len: int, k: int) -> Seq<char>
    decreases k - len,
{
    if k <= len {
        Seq::empty()
    } else {
        zpad_partial(s, len, k - 1) + seq!['0']
    }
}

/// The padding loop builds exactly `zpad`.
proof fn lemma_zpad(s: Seq<char>, len: int, w: int)
    requires
        len == s.len(),
        w >= len,
    ensures
        zpad_partial(s, len, w) + s == zpad(s, w),
    decreases w - len,
{
    if w > len {
        lemma_zpad(seq!['0'] + s, len + 1, w);
        assert(zpad_partial(seq!['0'] + s, len + 1, w) + (seq!['0'] + s) =~= (zpad_partial(
            seq!['0'] + s,
            len + 1,
            w,
        ) + seq!['0']) + s);
        lemma_zpad_shift(s, len, w);
    } else {
        assert(zpad_partial(s, len, w) + s =~= s);
    }
}

/// Shifting the base of the partial padding.
proof fn lemma_zpad_shift(s: Seq<char>, len: int, k: int)
    requires
        len == s.len(),
        k > len,
    ensures
        zpad_partial(s, len, k) == zpad_partial(seq!['0'] + s, len + 1, k) + seq!['0'],
    decreases k - len,
{
    let z = seq!['0'] + s;
    if k - 1 > len {
        lemma_zpad_shift(s, len, k - 1);
        assert(zpad_partial(s, len, k) == zpad_partial(s, len, k - 1) + seq!['0']);
        assert(zpad_partial(z, len + 1, k) == zpad_partial(z, len + 1, k - 1) + seq!['0']);
        assert(zpad_partial(s, len, k) =~= zpad_partial(z, len + 1, k) + seq!['0']);
    } else {
        assert(zpad_partial(s, len, k) == zpad_partial(s, len, k - 1) + seq!['0']);
        assert(zpad_partial(s, len, k - 1) == Seq::<char>::empty());
        assert(zpad_partial(z, len + 1, k) == Seq::<char>::empty());
        assert(zpad_partial(s, len, k) =~= zpad_partial(z, len + 1, k) + seq!['0']);
    }
}

/// Today's date as "YYYY-MM-DD" from a unix-second count.
pub fn chrono_like_today(secs: u64) -> (r: String)
    ensures
        ({
            let (y, m, d) = flat_date_of(secs as int);
            r@ == zpad(dec_text(y as nat), 4) + seq!['-'] + zpad(dec_text(m as nat), 2)
                + seq!['-'] + zpad(dec_text(d as nat), 2)
        }),
{
    let days: u64 = secs / 86400;
    let years: u64 = days / 365 + 1970;
    let rem: u64 = days % 365;
    let month: u64 = rem / 30 + 1;
    let day: u64 = rem % 30 + 1;
    let m: u64 = if month <= 12 {
        month
    } else {
        12
    };
    let d: u64 = if day <= 31 {
        day
    } else {
        31
    };
    let mut out = String::new();
    append_u64_pad(&mut out, years, 4);
    push_char(&mut out, '-');
    append_u64_pad(&mut out, m, 2);
    push_char(&mut out, '-');
    append_u64_pad(&mut out, d, 2);
    proof {
        let (ys, ms, ds) = flat_date_of(secs as int);
        assert(years as int == ys && m as int == ms && d as int == ds);
        assert(out@ =~= zpad(dec_text(ys as nat), 4) + seq!['-'] + zpad(dec_text(ms as nat), 2)
            + seq!['-'] + zpad(dec_text(ds as nat), 2));
    }
    out
}


/// Ghost image of one terminal-session record.
pub ghost struct TmuxInfoV {
    pub session_id: Seq<char>,
    pub tmux_name: Seq<char>,
    pub start_time_ms: int,
    pub cwd: Seq<char>,
}

/// One terminal session this process spawned.
pub struct TmuxSessionInfo {
    pub session_id: String,
    pub tmux_name: String,
    /// When the session was spawned, in unix milliseconds.
    pub start_time_ms: u64,
    pub cwd: String,
}

impl View for TmuxSessionInfo {
    type V = TmuxInfoV;

    open spec fn view(&self) -> TmuxInfoV {
        TmuxInfoV {
            session_id: self.session_id@,
            tmux_name: self.tmux_name@,
            start_time_ms: self.start_time_ms as int,
            cwd: self.cwd@,
        }
    }
}

/// The images of the registry entries.
pub open spec fn tmux_view(s: Seq<(String, TmuxSessionInfo)>) -> Seq<(Seq<char>, TmuxInfoV)> {
    s.map_values(|p: (String, TmuxSessionInfo)| (p.0@, p.1@))
}

/// The latest registered record under this id, if any.
pub open spec fn tmux_lookup(s: Seq<(Seq<char>, TmuxInfoV)>, id: Seq<char>) -> Option<TmuxInfoV>
    decreases s.len(),
{
    if s.len() == 0 {
        None
    } else if s.last().0 == id {
        Some(s.last().1)
    } else {
        tmux_lookup(s.drop_last(), id)
    }
}

/// The registry without this id's records.
pub open spec fn tmux_without(s: Seq<(Seq<char>, TmuxInfoV)>, id: Seq<char>) -> Seq<
    (Seq<char>, TmuxInfoV),
>
    decreases s.len(),
{
    if s.len() == 0 {
        Seq::empty()
    } else {
        tmux_without(s.drop_last(), id) + (if s.last().0 == id {
            Seq::<(Seq<char>, TmuxInfoV)>::empty()
        } else {
            seq![s.last()]
        })
    }
}

/// The tmux name a session id maps to: names already carrying a manager
/// prefix pass through; otherwise the id's first eight characters (fewer
/// when the id is shorter) behind "feather-".
pub open spec fn session_name_of(id: Seq<char>) -> Seq<char> {
    if (id.len() >= 8 && id.take(8) == "feather-"@) || (id.len() >= 6 && id.take(6) == "codex-"@) {
        id
    } else {
        "feather-"@ + id.take(if id.len() < 8 {
            id.len() as int
        } else {
            8
        })
    }
}

/// The registry of terminal sessions this process spawned. Spawning,
/// signalling and capturing the terminals themselves is process control
/// and lives with the caller; the registry only remembers what was
/// spawned, and how ids map to terminal session names.
pub struct TmuxManager {
    /// The records, oldest first; the latest record under an id wins.
    pub active_sessions: Vec<(String, TmuxSessionInfo)>,
    /// Working directory for new sessions when the caller names none.
    pub default_cwd: String,
}

impl TmuxManager {
    /// A fresh registry with a default working directory.
    pub fn new(default_cwd: String) -> (r: TmuxManager)
        ensures
            tmux_view(r.active_sessions@) == Seq::<(Seq<char>, TmuxInfoV)>::empty(),
            r.default_cwd == default_cwd,
    {
        let r = TmuxManager { active_sessions: Vec::new(), default_cwd };
        proof {
            assert(tmux_view(r.active_sessions@) =~= Seq::<(Seq<char>, TmuxInfoV)>::empty());
        }
        r
    }

    /// The terminal session name for a session id.
    pub fn get_session_name(&self, session_id: &str) -> (r: String)
        ensures
            r@ == session_name_of(session_id@),
    {
        let starts_feather = crate::text::str_starts_with(session_id, "feather-");
        let starts_codex = crate::text::str_starts_with(session_id, "codex-");
        proof {
            reveal_strlit("feather-");
            reveal_strlit("codex-");
        }
        if starts_feather || starts_codex {
            session_id.to_owned()
        } else {
            let n: usize = session_id.unicode_len();
            let k: usize = if n < 8 {
                n
            } else {
                8
            };
            let head = session_id.substring_char(0, k);
            let mut out = String::new();
            out.append("feather-");
            out.append(head);
            proof {
                assert(head@ == session_id@.take(k as int));
                assert(out@ =~= session_name_of(session_id@));
            }
            out
        }
    }

    /// The latest record under this id.
    pub fn get_session_info(&self, session_id: &str) -> (r: Option<TmuxSessionInfo>)
        ensures
            match r {
                Some(info) => tmux_lookup(tmux_view(self.active_sessions@), session_id@) == Some(
                    info@,
                ),
                None => tmux_lookup(tmux_view(self.active_sessions@), session_id@) is None,
            },
    {
        let ghost vs = tmux_view(self.active_sessions@);
        let mut j: usize = self.active_sessions.len();
        proof {
            assert(vs.take(vs.len() as int) =~= vs);
        }
        loop
            invariant
                j <= self.active_sessions@.len(),
                vs == tmux_view(self.active_sessions@),
                vs.len() == self.active_sessions@.len(),
                tmux_lookup(vs, session_id@) == tmux_lookup(vs.take(j as int), session_id@),
            ensures
                vs == tmux_view(self.active_sessions@),
                (j == 0 && tmux_lookup(vs, session_id@) is None) || (0 < j <= vs.len()
                    && tmux_lookup(vs, session_id@) == Some(vs[j - 1].1) && vs[j - 1].0
                    == session_id@),
            decreases j,
        {
            if j == 0 {
                proof {
                    assert(vs.take(0).len() == 0);
                }
                break ;
            }
            proof {
                assert(vs[j - 1] == (
                    self.active_sessions@[j - 1 as int].0@,
                    self.active_sessions@[j - 1 as int].1@,
                ));
                assert(vs.take(j as int).last() == vs[j - 1]);
                assert(vs.take(j as int).drop_last() =~= vs.take(j - 1 as int));
            }
            if str_eq(self.active_sessions[j - 1].0.as_str(), session_id) {
                break ;
            }
            j = j - 1;
        }
        if j == 0 {
            None
        } else {
            let info = &self.active_sessions[j - 1].1;
            Some(
                TmuxSessionInfo {
                    session_id: info.session_id.clone(),
                    tmux_name: info.tmux_name.clone(),
                    start_time_ms: info.start_time_ms,
                    cwd: info.cwd.clone(),
                },
            )
        }
    }

    /// Remember a spawned session; the newest record under an id wins.
    pub fn register_session(&mut self, session_id: String, info: TmuxSessionInfo)
        ensures
            tmux_view(final(self).active_sessions@) == tmux_view(
                old(self).active_sessions@,
            ).push((session_id@, info@)),
            final(self).default_cwd == old(self).default_cwd,
    {
        let ghost vs = tmux_view(self.active_sessions@);
        let ghost kg = session_id;
        let ghost ig = info;
        let ghost prev = self.active_sessions@;
        self.active_sessions.push((session_id, info));
        proof {
            assert(self.active_sessions@ == prev.push((kg, ig)));
            assert forall|t: int|
                0 <= t < self.active_sessions@.len() implies #[trigger] tmux_view(
                self.active_sessions@,
            )[t] == vs.push((kg@, ig@))[t] by {
                if t < prev.len() {
                    assert(self.active_sessions@[t] == prev[t]);
                } else {
                    assert(self.active_sessions@[t] == (kg, ig));
                }
            }
            assert(tmux_view(self.active_sessions@) =~= vs.push((kg@, ig@)));
        }
    }

    /// Forget a session's records.
    pub fn remove_session(&mut self, session_id: &str)
        ensures
            tmux_view(final(self).active_sessions@) == tmux_without(
                tmux_view(old(self).active_sessions@),
                session_id@,
            ),
            final(self).default_cwd == old(self).default_cwd,
    {
        let ghost vs = tmux_view(self.active_sessions@);
        let ghost total = vs.len();
        let mut kept: Vec<(String, TmuxSessionInfo)> = Vec::new();
        let mut rest = Vec::new();
        core::mem::swap(&mut rest, &mut self.active_sessions);
        proof {
            assert(tmux_view(rest@) =~= vs.skip(0));
            assert(tmux_view(kept@) =~= tmux_without(vs.take(0), session_id@));
        }
        loop
            invariant
                tmux_view(rest@) == vs.skip(total - rest@.len()),
                tmux_view(kept@) == tmux_without(vs.take(total - rest@.len()), session_id@),
                rest@.len() <= total,
                total == vs.len(),
            ensures
                rest@.len() == 0,
                tmux_view(kept@) == tmux_without(vs, session_id@),
            decreases rest@.len(),
        {
            if rest.len() == 0 {
                proof {
                    assert(vs.take(total - rest@.len()) =~= vs);
                }
                break ;
            }
            let ghost k = total - rest@.len();
            let ghost prevrest = rest@;
            let entry = rest.remove(0);
            let ghost eg = entry;
            proof {
                assert(rest@ =~= prevrest.drop_first());
                assert(tmux_view(prevrest)[0] == (prevrest[0].0@, prevrest[0].1@));
                assert((eg.0@, eg.1@) == vs[k]);
                assert forall|t: int|
                    0 <= t < rest@.len() implies #[trigger] tmux_view(rest@)[t] == vs.skip(
                    k + 1,
                )[t] by {
                    assert(rest@[t] == prevrest[t + 1]);
                    assert(tmux_view(prevrest)[t + 1] == (prevrest[t + 1].0@, prevrest[t + 1].1@));
                    assert(tmux_view(prevrest)[t + 1] == vs.skip(k)[t + 1]);
                }
                assert(tmux_view(rest@) =~= vs.skip(k + 1));
                assert(vs.take(k + 1).drop_last() =~= vs.take(k));
                assert(vs.take(k + 1).last() == vs[k]);
            }
            if !str_eq(entry.0.as_str(), session_id) {
                let ghost prevkept = kept@;
                kept.push(entry);
                proof {
                    assert(kept@ == prevkept.push(eg));
                    assert(tmux_view(prevkept).len() == prevkept.len());
                    assert forall|t: int|
                        0 <= t < kept@.len() implies #[trigger] tmux_view(kept@)[t]
                        == tmux_without(vs.take(k + 1), session_id@)[t] by {
                        if t < prevkept.len() {
                            assert(kept@[t] == prevkept[t]);
                            assert(tmux_view(prevkept)[t] == tmux_without(
                                vs.take(k),
                                session_id@,
                            )[t]);
                        } else {
                            assert(kept@[t] == eg);
                        }
                    }
                    assert(tmux_view(kept@) =~= tmux_without(vs.take(k + 1), session_id@));
                }
            } else {
                proof {
                    assert(tmux_view(kept@) =~= tmux_without(vs.take(k + 1), session_id@));
                }
            }
        }
        self.active_sessions = kept;
    }
}

} // verus!
