//! The session cache: the single source of truth every reader consults.
//! It owns the id-keyed session table and the bounded change-event buffer
//! with drop-oldest semantics; a caller that needs to share it across
//! tasks wraps it in a lock, which serializes writes exactly as the
//! dispatcher queue does.

use vstd::prelude::*;

use crate::model::{
    clone_message, clone_messages, clone_meta, clone_session, msgs_view, EventV, MetaV, MsgV,
    NormalizedMessage, NormalizedSession, SessionEvent, SessionMeta, SessionV,
};
use crate::text::str_eq;

verus! {

/// The images of a session list.
pub open spec fn sessions_view(s: Seq<NormalizedSession>) -> Seq<SessionV> {
    s.map_values(|x: NormalizedSession| x@)
}

/// The images of a metadata list.
pub open spec fn smetas_view(s: Seq<SessionMeta>) -> Seq<MetaV> {
    s.map_values(|m: SessionMeta| m@)
}

/// The images of an event list.
pub open spec fn evs_view(s: Seq<SessionEvent>) -> Seq<EventV> {
    s.map_values(|e: SessionEvent| e@)
}

/// How many change events the buffer keeps before the oldest fall off.
pub open spec fn event_cap() -> int {
    256
}

/// Index of the first session with this id, or the length.
pub open spec fn cache_find(s: Seq<SessionV>, id: Seq<char>) -> int
    decreases s.len(),
{
    if s.len() == 0 {
        0
    } else if s[0].meta.id == id {
        0
    } else {
        1 + cache_find(s.drop_first(), id)
    }
}

/// A session as stored by `upsert`: a new parse without a title keeps the
/// title the cached session already had.
pub open spec fn merged_session(s: Seq<SessionV>, sv: SessionV) -> SessionV {
    let i = cache_find(s, sv.meta.id);
    if sv.meta.title is None && i < s.len() {
        SessionV {
            meta: MetaV { title: s[i].meta.title, ..sv.meta },
            messages: sv.messages,
            normalized_path: sv.normalized_path,
        }
    } else {
        sv
    }
}

/// The session table after an upsert: the merged session replaces its id's
/// entry in place, or joins at the end.
pub open spec fn upsert_spec(s: Seq<SessionV>, sv: SessionV) -> Seq<SessionV> {
    let i = cache_find(s, sv.meta.id);
    let m = merged_session(s, sv);
    if i < s.len() {
        s.update(i, m)
    } else {
        s.push(m)
    }
}

/// A well-formed session: its stated message count is its message list's
/// length.
pub open spec fn wf_session(sv: SessionV) -> bool {
    sv.meta.message_count == sv.messages.len()
}

/// The event buffer after one more event: the oldest falls off at the cap.
pub open spec fn push_event(evs: Seq<EventV>, e: EventV) -> Seq<EventV> {
    let w = evs.push(e);
    if w.len() > event_cap() {
        w.skip(w.len() - event_cap())
    } else {
        w
    }
}

/// The session cache.
pub struct SessionCache {
    /// The sessions, id-keyed by the methods; go through the methods.
    pub sessions: Vec<NormalizedSession>,
    /// The retained change events, oldest first.
    pub events: Vec<SessionEvent>,
    /// Sequence number of the first retained event.
    pub base_seq: u64,
    /// Directory that holds the canonical files.
    pub normalized_dir: String,
    /// Path of the fact store a downstream consumer appends to.
    pub memory_file: String,
}

impl View for SessionCache {
    type V = Seq<SessionV>;

    open spec fn view(&self) -> Seq<SessionV> {
        sessions_view(self.sessions@)
    }
}

impl SessionCache {
    /// The images of the retained events.
    pub open spec fn events_view(&self) -> Seq<EventV> {
        evs_view(self.events@)
    }

    /// Every stored session is well formed and ids are unique.
    pub open spec fn wf(&self) -> bool {
        &&& forall|i: int| 0 <= i < self@.len() ==> wf_session(#[trigger] self@[i])
        &&& forall|i: int, j: int|
            0 <= i < j < self@.len() ==> #[trigger] self@[i].meta.id != #[trigger] self@[j].meta.id
        &&& self.events@.len() <= event_cap()
    }

    /// Room for one more event sequence number.
    pub open spec fn seq_headroom(&self) -> bool {
        self.base_seq + self.events@.len() < u64::MAX
    }

    /// The sequence number one past the newest event.
    pub open spec fn next_seq(&self) -> int {
        self.base_seq + self.events@.len()
    }

    /// A fresh, empty cache.
    pub fn new(normalized_dir: String, memory_file: String) -> (r: SessionCache)
        ensures
            r@ == Seq::<SessionV>::empty(),
            r.events_view() == Seq::<EventV>::empty(),
            r.wf(),
            r.next_seq() == 0,
            r.normalized_dir == normalized_dir,
            r.memory_file == memory_file,
    {
        let r = SessionCache {
            sessions: Vec::new(),
            events: Vec::new(),
            base_seq: 0,
            normalized_dir,
            memory_file,
        };
        proof {
            assert(r@ =~= Seq::<SessionV>::empty());
            assert(r.events_view() =~= Seq::<EventV>::empty());
        }
        r
    }

    /// Find the position of a session id.
    fn find(&self, session_id: &str) -> (r: usize)
        ensures
            r as int == cache_find(self@, session_id@),
            r <= self@.len(),
            r < self@.len() ==> self@[r as int].meta.id == session_id@,
    {
        let ghost vs = self@;
        let mut i: usize = 0;
        proof {
            assert(vs.skip(0) =~= vs);
            lemma_cache_find_skip(vs, session_id@, 0);
        }
        loop
            invariant
                i <= self.sessions@.len(),
                vs == self@,
                vs.len() == self.sessions@.len(),
                cache_find(vs, session_id@) == i + cache_find(vs.skip(i as int), session_id@),
                forall|k: int| 0 <= k < i ==> vs[k].meta.id != session_id@,
            ensures
                vs == self@,
                i as int == cache_find(vs, session_id@),
                i <= vs.len(),
                i < vs.len() ==> vs[i as int].meta.id == session_id@,
            decreases self.sessions@.len() - i,
        {
            if i >= self.sessions.len() {
                proof {
                    assert(vs.skip(i as int).len() == 0);
                }
                break ;
            }
            proof {
                assert(vs[i as int] == self.sessions@[i as int]@);
            }
            if str_eq(self.sessions[i].meta.id.as_str(), session_id) {
                proof {
                    assert(vs.skip(i as int)[0] == vs[i as int]);
                }
                break ;
            }
            proof {
                assert(vs.skip(i as int)[0] == vs[i as int]);
                assert(vs.skip(i as int).drop_first() =~= vs.skip(i + 1 as int));
            }
            i = i + 1;
        }
        i
    }

    /// A copy of the session with this id, if it is cached.
    pub fn get(&self, session_id: &str) -> (r: Option<NormalizedSession>)
        ensures
            match r {
                Some(s) => {
                    let i = cache_find(self@, session_id@);
                    i < self@.len() && s@ == self@[i]
                },
                None => cache_find(self@, session_id@) == self@.len(),
            },
    {
        let i = self.find(session_id);
        if i < self.sessions.len() {
            proof {
                assert(self@[i as int] == self.sessions@[i as int]@);
            }
            Some(clone_session(&self.sessions[i]))
        } else {
            None
        }
    }

    /// Append one event, dropping the oldest past the cap.
    fn push_event_exec(&mut self, e: SessionEvent)
        requires
            old(self).events@.len() <= event_cap(),
            old(self).seq_headroom(),
        ensures
            final(self).events_view() == push_event(old(self).events_view(), e@),
            final(self).events@.len() <= event_cap(),
            final(self).sessions == old(self).sessions,
            final(self).normalized_dir == old(self).normalized_dir,
            final(self).memory_file == old(self).memory_file,
            final(self).next_seq() == old(self).next_seq() + 1,
    {
        let ghost prev = self.events@;
        let ghost eg = e;
        self.events.push(e);
        proof {
            assert(self.events@ == prev.push(eg));
            assert forall|t: int| 0 <= t < self.events@.len() implies #[trigger] self.events_view()[t]
                == evs_view(prev).push(eg@)[t] by {
                if t < prev.len() {
                    assert(self.events@[t] == prev[t]);
                } else {
                    assert(self.events@[t] == eg);
                }
            }
            assert(self.events_view() =~= evs_view(prev).push(eg@));
        }
        if self.events.len() > 256 {
            let ghost before = self.events@;
            let dropped = self.events.remove(0);
            self.base_seq = self.base_seq + 1;
            proof {
                assert(self.events@ =~= before.drop_first());
                assert forall|t: int| 0 <= t < self.events@.len() implies #[trigger] self.events_view()[t]
                    == evs_view(before).skip(1)[t] by {
                    assert(self.events@[t] == before[t + 1]);
                }
                assert(self.events_view() =~= evs_view(before).skip(1));
                assert(self.events_view() =~= push_event(
                    evs_view(prev),
                    eg@,
                ));
            }
        } else {
            proof {
                assert(self.events_view() =~= push_event(
                    evs_view(prev),
                    eg@,
                ));
            }
        }
    }

    /// Insert or refresh a session, keeping a previously set title when the
    /// new parse has none, and record the change event.
    pub fn upsert(&mut self, session: NormalizedSession)
        requires
            old(self).wf(),
            old(self).seq_headroom(),
            wf_session(session@),
        ensures
            final(self).next_seq() == old(self).next_seq() + 1,
            final(self).wf(),
            final(self)@ == upsert_spec(old(self)@, session@),
            final(self).events_view() == push_event(
                old(self).events_view(),
                EventV::Updated {
                    session_id: session@.meta.id,
                    new_messages: session@.messages,
                },
            ),
            final(self).normalized_dir == old(self).normalized_dir,
            final(self).memory_file == old(self).memory_file,
    {
        let ghost vs = self@;
        let mut session = session;
        let event_id = session.meta.id.clone();
        let event_msgs = clone_messages(&session.messages);
        let i = self.find(session.meta.id.as_str());
        if session.meta.title.is_none() && i < self.sessions.len() {
            proof {
                assert(vs[i as int] == self.sessions@[i as int]@);
            }
            session.meta.title = match &self.sessions[i].meta.title {
                Some(t) => Some(t.clone()),
                None => None,
            };
        }
        let ghost merged = session@;
        if i < self.sessions.len() {
            let ghost prev = self.sessions@;
            let ghost sg = session;
            self.sessions.set(i, session);
            proof {
                assert(self.sessions@ == prev.update(i as int, sg));
                assert forall|t: int| 0 <= t < self@.len() implies #[trigger] self@[t] == vs.update(
                    i as int,
                    sg@,
                )[t] by {
                    if t != i {
                        assert(self.sessions@[t] == prev[t]);
                    } else {
                        assert(self.sessions@[t] == sg);
                    }
                }
                assert(self@ =~= vs.update(i as int, sg@));
            }
        } else {
            let ghost prev = self.sessions@;
            let ghost sg = session;
            self.sessions.push(session);
            proof {
                assert(self.sessions@ == prev.push(sg));
                assert forall|t: int| 0 <= t < self@.len() implies #[trigger] self@[t] == vs.push(
                    sg@,
                )[t] by {
                    if t < prev.len() {
                        assert(self.sessions@[t] == prev[t]);
                    } else {
                        assert(self.sessions@[t] == sg);
                    }
                }
                assert(self@ =~= vs.push(sg@));
            }
        }
        self.push_event_exec(
            SessionEvent::Updated { session_id: event_id, new_messages: event_msgs },
        );
        proof {
            lemma_cache_find_bounds(vs, merged.meta.id);
            assert(wf_session(merged));
            assert forall|t: int| 0 <= t < self@.len() implies wf_session(#[trigger] self@[t]) by {
                if t != i as int {
                    assert(self@[t] == vs[t]);
                }
            }
            assert forall|a: int, b: int|
                0 <= a < b < self@.len() implies #[trigger] self@[a].meta.id
                != #[trigger] self@[b].meta.id by {
                if a != i as int && b != i as int && a < vs.len() && b < vs.len() {
                    assert(self@[a] == vs[a] && self@[b] == vs[b]);
                } else if a == i as int && b < vs.len() {
                    assert(self@[b] == vs[b]);
                    assert(self@[a].meta.id == merged.meta.id);
                } else if b == i as int && a < vs.len() {
                    assert(self@[a] == vs[a]);
                    assert(self@[b].meta.id == merged.meta.id);
                } else if b == vs.len() {
                    assert(self@[b].meta.id == merged.meta.id);
                    assert(self@[a] == vs[a]);
                }
            }
        }
    }

    /// Record a freshly generated title on a session, and the event, whether
    /// or not the session is cached.
    pub fn update_title(&mut self, session_id: &str, title: String)
        requires
            old(self).wf(),
            old(self).seq_headroom(),
        ensures
            final(self).next_seq() == old(self).next_seq() + 1,
            final(self).wf(),
            ({
                let i = cache_find(old(self)@, session_id@);
                if i < old(self)@.len() {
                    final(self)@ == old(self)@.update(
                        i,
                        SessionV {
                            meta: MetaV { title: Some(title@), ..old(self)@[i].meta },
                            messages: old(self)@[i].messages,
                            normalized_path: old(self)@[i].normalized_path,
                        },
                    )
                } else {
                    final(self)@ == old(self)@
                }
            }),
            final(self).events_view() == push_event(
                old(self).events_view(),
                EventV::TitleUpdated { session_id: session_id@, title: title@ },
            ),
    {
        let ghost vs = self@;
        let i = self.find(session_id);
        if i < self.sessions.len() {
            proof {
                assert(vs[i as int] == self.sessions@[i as int]@);
            }
            let ghost prev = self.sessions@;
            let mut entry = self.sessions.remove(i);
            entry.meta.title = Some(title.clone());
            let ghost eg = entry;
            self.sessions.insert(i, entry);
            proof {
                assert(self.sessions@ =~= prev.update(i as int, eg));
                assert forall|t: int| 0 <= t < self@.len() implies #[trigger] self@[t] == vs.update(
                    i as int,
                    eg@,
                )[t] by {
                    if t != i {
                        assert(self.sessions@[t] == prev[t]);
                    } else {
                        assert(self.sessions@[t] == eg);
                    }
                }
                assert(self@ =~= vs.update(i as int, eg@));
                lemma_cache_find_unique(vs, vs[i as int].meta.id);
            }
        }
        self.push_event_exec(
            SessionEvent::TitleUpdated { session_id: session_id.to_owned(), title },
        );
        proof {
            assert forall|t: int| 0 <= t < self@.len() implies wf_session(#[trigger] self@[t]) by {
                if t != i as int {
                    assert(self@[t] == vs[t]);
                }
            }
            assert forall|a: int, b: int|
                0 <= a < b < self@.len() implies #[trigger] self@[a].meta.id
                != #[trigger] self@[b].meta.id by {
                assert(self@[a].meta.id == vs[a].meta.id);
                assert(self@[b].meta.id == vs[b].meta.id);
            }
        }
    }

    /// The sequence number a new subscriber starts reading from.
    pub fn subscribe(&self) -> (r: u64)
        requires
            self.seq_headroom(),
        ensures
            r as int == self.next_seq(),
    {
        self.base_seq + (self.events.len() as u64)
    }

    /// The events at and after `cursor`, the cursor to poll with next, and
    /// whether events were already gone (a slow reader skipped some).
    pub fn poll_events(&self, cursor: u64) -> (r: (Vec<SessionEvent>, u64, bool))
        requires
            self.seq_headroom(),
        ensures
            r.1 as int == self.next_seq(),
            r.2 == (cursor < self.base_seq),
            ({
                let from = if cursor < self.base_seq {
                    0
                } else if cursor - self.base_seq <= self.events@.len() {
                    cursor - self.base_seq
                } else {
                    self.events@.len() as int
                };
                evs_view(r.0@) == self.events_view().skip(from)
            }),
    {
        let skipped = cursor < self.base_seq;
        let from: usize = if skipped {
            0
        } else {
            let d = cursor - self.base_seq;
            if d <= self.events.len() as u64 {
                d as usize
            } else {
                self.events.len()
            }
        };
        let mut out: Vec<SessionEvent> = Vec::new();
        let mut i: usize = from;
        proof {
            assert(evs_view(out@) =~= self.events_view().skip(from as int).take(0));
        }
        while i < self.events.len()
            invariant
                from <= i <= self.events@.len(),
                evs_view(out@) == self.events_view().skip(from as int).take(i - from),
            decreases self.events@.len() - i,
        {
            let e = clone_event(&self.events[i]);
            let ghost eg = e;
            let ghost prev = out@;
            out.push(e);
            proof {
                assert(out@ == prev.push(eg));
                assert(eg@ == self.events@[i as int]@);
                assert(self.events_view()[i as int] == self.events@[i as int]@);
                assert(self.events_view().len() == self.events@.len());
                assert(evs_view(prev).len() == prev.len());
                assert(prev.len() == i - from);
                assert forall|t: int| 0 <= t < out@.len() implies #[trigger] evs_view(out@)[t]
                    == self.events_view().skip(from as int).take(i - from + 1)[t] by {
                    if t < prev.len() {
                        assert(out@[t] == prev[t]);
                        assert(evs_view(prev)[t] == self.events_view().skip(from as int).take(
                            i - from,
                        )[t]);
                    } else {
                        assert(out@[t] == eg);
                        assert(self.events_view().skip(from as int)[t] == self.events_view()[from
                            + t]);
                    }
                }
                assert(evs_view(out@) =~= self.events_view().skip(from as int).take(i - from + 1));
            }
            i = i + 1;
        }
        proof {
            assert(self.events_view().skip(from as int).take(self.events@.len() - from)
                =~= self.events_view().skip(from as int));
        }
        (out, self.base_seq + (self.events.len() as u64), skipped)
    }
}

/// The found index is in range, nothing before it has the id, and it has
/// the id when it is in range.
pub proof fn lemma_cache_find_bounds(s: Seq<SessionV>, id: Seq<char>)
    ensures
        0 <= cache_find(s, id) <= s.len(),
        forall|k: int| 0 <= k < cache_find(s, id) ==> s[k].meta.id != id,
        cache_find(s, id) < s.len() ==> s[cache_find(s, id)].meta.id == id,
    decreases s.len(),
{
    if s.len() > 0 && s[0].meta.id != id {
        lemma_cache_find_bounds(s.drop_first(), id);
        assert(forall|k: int|
            0 <= k < cache_find(s.drop_first(), id) ==> #[trigger] s.drop_first()[k].meta.id
                != id);
        assert forall|k: int| 0 <= k < cache_find(s, id) implies s[k].meta.id != id by {
            if k > 0 {
                assert(s.drop_first()[k - 1].meta.id != id);
            }
        }
    }
}

/// Splitting the search at a clean prefix shifts the found index.
proof fn lemma_cache_find_skip(s: Seq<SessionV>, id: Seq<char>, i: int)
    requires
        0 <= i <= s.len(),
        forall|k: int| 0 <= k < i ==> s[k].meta.id != id,
    ensures
        cache_find(s, id) == i + cache_find(s.skip(i), id),
    decreases i,
{
    if i == 0 {
        assert(s.skip(0) =~= s);
    } else {
        assert(s[0].meta.id != id);
        assert(s.drop_first() =~= s.skip(1));
        assert(forall|k: int| 0 <= k < i - 1 ==> #[trigger] s.skip(1)[k].meta.id != id);
        lemma_cache_find_skip(s.skip(1), id, i - 1);
        assert(s.skip(1).skip(i - 1) =~= s.skip(i));
        assert(cache_find(s, id) == 1 + cache_find(s.skip(1), id));
    }
}

/// With unique ids, the found index is the only place the id lives.
proof fn lemma_cache_find_unique(s: Seq<SessionV>, id: Seq<char>)
    requires
        forall|i: int, j: int|
            0 <= i < j < s.len() ==> #[trigger] s[i].meta.id != #[trigger] s[j].meta.id,
    ensures
        forall|k: int|
            0 <= k < s.len() && #[trigger] s[k].meta.id == id ==> cache_find(s, id) == k,
    decreases s.len(),
{
    assert forall|k: int| 0 <= k < s.len() && #[trigger] s[k].meta.id == id implies cache_find(
        s,
        id,
    ) == k by {
        assert(forall|t: int| 0 <= t < k ==> s[t].meta.id != id);
        lemma_cache_find_skip(s, id, k);
        assert(s.skip(k)[0] == s[k]);
    }
}

/// Deep copy of one event; the copy has the same image.
fn clone_event(e: &SessionEvent) -> (r: SessionEvent)
    ensures
        r@ == e@,
{
    match e {
        SessionEvent::Updated { session_id, new_messages } => SessionEvent::Updated {
            session_id: session_id.clone(),
            new_messages: clone_messages(new_messages),
        },
        SessionEvent::TitleUpdated { session_id, title } => SessionEvent::TitleUpdated {
            session_id: session_id.clone(),
            title: title.clone(),
        },
        SessionEvent::MemoryExtracted { session_id, facts } => {
            let mut fs: Vec<crate::model::ExtractedFact> = Vec::new();
            let mut i: usize = 0;
            proof {
                assert(crate::model::facts_view(fs@) =~= crate::model::facts_view(facts@).take(0));
            }
            while i < facts.len()
                invariant
                    i <= facts@.len(),
                    crate::model::facts_view(fs@) == crate::model::facts_view(facts@).take(
                        i as int,
                    ),
                decreases facts@.len() - i,
            {
                let f = &facts[i];
                let c = crate::model::ExtractedFact {
                    date: f.date.clone(),
                    session: f.session.clone(),
                    msg: f.msg.clone(),
                    fact: f.fact.clone(),
                    action: f.action.clone(),
                    old: match &f.old {
                        Some(o) => Some(o.clone()),
                        None => None,
                    },
                };
                let ghost cg = c;
                let ghost prev = fs@;
                fs.push(c);
                proof {
                    assert(fs@ == prev.push(cg));
                    assert(crate::model::facts_view(facts@).len() == facts@.len());
                    assert(crate::model::facts_view(prev).len() == prev.len());
                    assert(prev.len() == i as int);
                    assert(crate::model::facts_view(facts@)[i as int] == facts@[i as int]@);
                    assert forall|t: int|
                        0 <= t < fs@.len() implies #[trigger] crate::model::facts_view(fs@)[t]
                        == crate::model::facts_view(facts@).take(i + 1 as int)[t] by {
                        if t < prev.len() {
                            assert(fs@[t] == prev[t]);
                            assert(crate::model::facts_view(prev)[t] == crate::model::facts_view(
                                facts@,
                            ).take(i as int)[t]);
                        } else {
                            assert(fs@[t] == cg);
                        }
                    }
                    assert(crate::model::facts_view(fs@) =~= crate::model::facts_view(facts@).take(
                        i + 1 as int,
                    ));
                }
                i = i + 1;
            }
            proof {
                assert(crate::model::facts_view(facts@).take(facts@.len() as int)
                    =~= crate::model::facts_view(facts@));
            }
            SessionEvent::MemoryExtracted { session_id: session_id.clone(), facts: fs }
        },
    }
}


/// Ids of the stored sessions, as a set.
pub open spec fn ids_of(s: Seq<SessionV>) -> Set<Seq<char>>
    decreases s.len(),
{
    if s.len() == 0 {
        Set::empty()
    } else {
        ids_of(s.drop_last()).insert(s.last().meta.id)
    }
}

/// Membership in `ids_of` is having an entry with that id.
pub proof fn lemma_ids_of_contains(s: Seq<SessionV>, x: Seq<char>)
    ensures
        ids_of(s).contains(x) <==> exists|i: int| 0 <= i < s.len() && s[i].meta.id == x,
    decreases s.len(),
{
    if s.len() > 0 {
        lemma_ids_of_contains(s.drop_last(), x);
        if ids_of(s).contains(x) {
            if s.last().meta.id == x {
                assert(s[s.len() - 1].meta.id == x);
            } else {
                let i = choose|i: int| 0 <= i < s.len() - 1 && s.drop_last()[i].meta.id == x;
                assert(s[i].meta.id == x);
            }
        }
        if exists|i: int| 0 <= i < s.len() && s[i].meta.id == x {
            let i = choose|i: int| 0 <= i < s.len() && s[i].meta.id == x;
            if i < s.len() - 1 {
                assert(s.drop_last()[i].meta.id == x);
            }
        }
    }
}

/// The sessions that stay when the listed ids are evicted, in order.
pub open spec fn retained(s: Seq<SessionV>, missing: Set<Seq<char>>) -> Seq<SessionV>
    decreases s.len(),
{
    if s.len() == 0 {
        Seq::empty()
    } else {
        retained(s.drop_last(), missing) + (if missing.contains(s.last().meta.id) {
            Seq::<SessionV>::empty()
        } else {
            seq![s.last()]
        })
    }
}

/// Eviction keeps sessions well formed and ids unique.
proof fn lemma_retained_wf(s: Seq<SessionV>, missing: Set<Seq<char>>)
    requires
        forall|i: int| 0 <= i < s.len() ==> wf_session(#[trigger] s[i]),
        forall|i: int, j: int|
            0 <= i < j < s.len() ==> #[trigger] s[i].meta.id != #[trigger] s[j].meta.id,
    ensures
        forall|i: int| 0 <= i < retained(s, missing).len() ==> wf_session(
            #[trigger] retained(s, missing)[i],
        ),
        forall|i: int, j: int|
            0 <= i < j < retained(s, missing).len() ==> #[trigger] retained(s, missing)[i].meta.id
                != #[trigger] retained(s, missing)[j].meta.id,
        ids_of(retained(s, missing)).subset_of(ids_of(s)),
    decreases s.len(),
{
    if s.len() > 0 {
        let sd = s.drop_last();
        assert(forall|i: int| 0 <= i < sd.len() ==> wf_session(#[trigger] sd[i]));
        assert(forall|i: int, j: int|
            0 <= i < j < sd.len() ==> #[trigger] sd[i].meta.id != #[trigger] sd[j].meta.id);
        lemma_retained_wf(sd, missing);
        let rp = retained(sd, missing);
        if !missing.contains(s.last().meta.id) {
            let r = retained(s, missing);
            assert(r =~= rp.push(s.last()));
            assert forall|t: int| 0 <= t < rp.len() implies rp[t].meta.id != s.last().meta.id by {
                assert(ids_of(rp).contains(rp[t].meta.id)) by {
                    lemma_ids_of_contains(rp, rp[t].meta.id);
                }
                assert(ids_of(sd).contains(rp[t].meta.id));
                lemma_ids_of_contains(sd, rp[t].meta.id);
                let j = choose|j: int| 0 <= j < sd.len() && sd[j].meta.id == rp[t].meta.id;
                if rp[t].meta.id == s.last().meta.id {
                    assert(s[j].meta.id == s[s.len() - 1].meta.id);
                }
            }
            assert(rp.push(s.last()).drop_last() =~= rp);
            assert(rp.push(s.last()).last() == s.last());
            assert(ids_of(r) =~= ids_of(rp).insert(s.last().meta.id));
            assert(ids_of(s) =~= ids_of(sd).insert(s.last().meta.id));
        } else {
            assert(retained(s, missing) =~= rp);
            assert(ids_of(s) =~= ids_of(sd).insert(s.last().meta.id));
        }
    }
}

/// The metadata rows of a session list.
pub open spec fn metas_of(s: Seq<SessionV>) -> Seq<MetaV> {
    s.map_values(|sv: SessionV| sv.meta)
}


impl SessionCache {
    /// List the sessions' metadata, evicting those whose canonical file the
    /// caller reports missing. Pruning twice with the same report changes
    /// nothing more.
    pub fn list_sessions(&mut self, missing: &Vec<String>) -> (r: Vec<SessionMeta>)
        requires
            old(self).wf(),
        ensures
            final(self).wf(),
            final(self)@ == retained(old(self)@, crate::primary::set_of(missing@)),
            smetas_view(r@) == metas_of(final(self)@),
            final(self).events_view() == old(self).events_view(),
            final(self).base_seq == old(self).base_seq,
            final(self).normalized_dir == old(self).normalized_dir,
            final(self).memory_file == old(self).memory_file,
    {
        let ghost vs = self@;
        let ghost miss = crate::primary::set_of(missing@);
        let mut kept: Vec<NormalizedSession> = Vec::new();
        let mut old_list = Vec::new();
        core::mem::swap(&mut old_list, &mut self.sessions);
        let ghost total = vs.len();
        proof {
            assert(sessions_view(old_list@) =~= vs.skip(0));
            assert(sessions_view(kept@) =~= retained(vs.take(0), miss));
        }
        loop
            invariant
                sessions_view(old_list@) == vs.skip(
                    total - old_list@.len(),
                ),
                sessions_view(kept@) == retained(
                    vs.take(total - old_list@.len()),
                    miss,
                ),
                old_list@.len() <= total,
                total == vs.len(),
                miss == crate::primary::set_of(missing@),
            ensures
                old_list@.len() == 0,
                sessions_view(kept@) == retained(vs, miss),
            decreases old_list@.len(),
        {
            if old_list.len() == 0 {
                proof {
                    assert(vs.take(total - old_list@.len()) =~= vs);
                }
                break ;
            }
            let ghost k = total - old_list@.len();
            let ghost prevrest = old_list@;
            let entry = old_list.remove(0);
            let ghost eg = entry;
            proof {
                assert(old_list@ =~= prevrest.drop_first());
                assert(sessions_view(prevrest)[0] == prevrest[0]@);
                assert(eg@ == vs[k]);
                assert forall|t: int|
                    0 <= t < old_list@.len() implies #[trigger] sessions_view(old_list@)[t]
                    == vs.skip(k + 1)[t] by {
                    assert(old_list@[t] == prevrest[t + 1]);
                    assert(sessions_view(prevrest)[t + 1] == prevrest[t
                        + 1]@);
                    assert(sessions_view(prevrest)[t + 1] == vs.skip(k)[t
                        + 1]);
                }
                assert(sessions_view(old_list@) =~= vs.skip(k + 1));
            }
            let is_missing = crate::primary::list_contains_pub(missing, entry.meta.id.as_str());
            if !is_missing {
                let ghost prevkept = kept@;
                kept.push(entry);
                proof {
                    assert(kept@ == prevkept.push(eg));
                    assert(sessions_view(prevkept).len() == prevkept.len());
                    assert(vs.take(k + 1).drop_last() =~= vs.take(k));
                    assert(vs.take(k + 1).last() == vs[k]);
                    assert(retained(vs.take(k), miss).len() == prevkept.len());
                    assert forall|t: int|
                        0 <= t < kept@.len() implies #[trigger] sessions_view(kept@)[t]
                        == retained(vs.take(k + 1), miss)[t] by {
                        assert(vs.take(k + 1).drop_last() =~= vs.take(k));
                        assert(vs.take(k + 1).last() == vs[k]);
                        if t < prevkept.len() {
                            assert(kept@[t] == prevkept[t]);
                            assert(sessions_view(prevkept)[t] == retained(
                                vs.take(k),
                                miss,
                            )[t]);
                        } else {
                            assert(kept@[t] == eg);
                        }
                    }
                    assert(sessions_view(kept@) =~= retained(
                        vs.take(k + 1),
                        miss,
                    ));
                }
            } else {
                proof {
                    assert(vs.take(k + 1).drop_last() =~= vs.take(k));
                    assert(vs.take(k + 1).last() == vs[k]);
                    assert(sessions_view(kept@) =~= retained(
                        vs.take(k + 1),
                        miss,
                    ));
                }
            }
        }
        self.sessions = kept;
        proof {
            lemma_retained_wf(vs, miss);
        }
        let mut metas: Vec<SessionMeta> = Vec::new();
        let mut t: usize = 0;
        proof {
            assert(smetas_view(metas@) =~= metas_of(self@).take(0));
        }
        while t < self.sessions.len()
            invariant
                t <= self.sessions@.len(),
                smetas_view(metas@) == metas_of(self@).take(t as int),
            decreases self.sessions@.len() - t,
        {
            let m = crate::model::clone_meta(&self.sessions[t].meta);
            let ghost mg = m;
            let ghost prevm = metas@;
            metas.push(m);
            proof {
                assert(metas@ == prevm.push(mg));
                assert(metas_of(self@).len() == self@.len());
                assert(smetas_view(prevm).len() == prevm.len());
                assert(prevm.len() == t as int);
                assert(self@[t as int] == self.sessions@[t as int]@);
                assert(metas_of(self@)[t as int] == self@[t as int].meta);
                assert(mg@ == self@[t as int].meta);
                assert forall|u: int|
                    0 <= u < metas@.len() implies #[trigger] smetas_view(metas@)[u]
                    == metas_of(self@).take(t + 1 as int)[u] by {
                    if u < prevm.len() {
                        assert(metas@[u] == prevm[u]);
                        assert(smetas_view(prevm)[u] == metas_of(self@).take(
                            t as int,
                        )[u]);
                    } else {
                        assert(metas@[u] == mg);
                    }
                }
                assert(smetas_view(metas@) =~= metas_of(self@).take(
                    t + 1 as int,
                ));
            }
            t = t + 1;
        }
        proof {
            assert(metas_of(self@).take(self@.len() as int) =~= metas_of(self@));
        }
        metas
    }

    /// Record that facts were extracted up to this message.
    pub fn mark_memory_extracted(&mut self, session_id: &str, last_uuid: String)
        requires
            old(self).wf(),
        ensures
            final(self).wf(),
            ({
                let i = cache_find(old(self)@, session_id@);
                if i < old(self)@.len() {
                    final(self)@ == old(self)@.update(
                        i,
                        SessionV {
                            meta: MetaV {
                                last_memory_uuid: Some(last_uuid@),
                                ..old(self)@[i].meta
                            },
                            messages: old(self)@[i].messages,
                            normalized_path: old(self)@[i].normalized_path,
                        },
                    )
                } else {
                    final(self)@ == old(self)@
                }
            }),
            final(self).events_view() == old(self).events_view(),
            final(self).base_seq == old(self).base_seq,
    {
        let ghost vs = self@;
        let i = self.find(session_id);
        if i < self.sessions.len() {
            proof {
                assert(vs[i as int] == self.sessions@[i as int]@);
            }
            let ghost prev = self.sessions@;
            let mut entry = self.sessions.remove(i);
            entry.meta.last_memory_uuid = Some(last_uuid);
            let ghost eg = entry;
            self.sessions.insert(i, entry);
            proof {
                assert(self.sessions@ =~= prev.update(i as int, eg));
                assert forall|t: int| 0 <= t < self@.len() implies #[trigger] self@[t] == vs.update(
                    i as int,
                    eg@,
                )[t] by {
                    if t != i {
                        assert(self.sessions@[t] == prev[t]);
                    } else {
                        assert(self.sessions@[t] == eg);
                    }
                }
                assert(self@ =~= vs.update(i as int, eg@));
                assert forall|t: int| 0 <= t < self@.len() implies wf_session(
                    #[trigger] self@[t],
                ) by {
                    if t != i as int {
                        assert(self@[t] == vs[t]);
                    }
                }
                assert forall|a: int, b: int|
                    0 <= a < b < self@.len() implies #[trigger] self@[a].meta.id
                    != #[trigger] self@[b].meta.id by {
                    assert(self@[a].meta.id == vs[a].meta.id);
                    assert(self@[b].meta.id == vs[b].meta.id);
                }
            }
        }
    }
}


/// The position facts were last extracted at: the first message carrying
/// the watermark id, or the start when there is none.
pub open spec fn last_mem_idx(sv: SessionV) -> int {
    match sv.meta.last_memory_uuid {
        Some(u) => if crate::order::find_uuid(sv.messages, u) < sv.messages.len() {
            crate::order::find_uuid(sv.messages, u)
        } else {
            0
        },
        None => 0,
    }
}

/// Does a session have at least `min` messages past the watermark?
pub open spec fn needs_extraction(sv: SessionV, min: int) -> bool {
    sv.messages.len() - last_mem_idx(sv) >= min
}

/// Ids of the sessions that need extraction, in cache order.
pub open spec fn needing(s: Seq<SessionV>, min: int) -> Seq<Seq<char>>
    decreases s.len(),
{
    if s.len() == 0 {
        Seq::empty()
    } else {
        needing(s.drop_last(), min) + (if needs_extraction(s.last(), min) {
            seq![s.last().meta.id]
        } else {
            Seq::<Seq<char>>::empty()
        })
    }
}

impl SessionCache {
    /// Ids of sessions with at least `min_new_messages` messages past the
    /// extraction watermark. A pure query: the cache is unchanged.
    pub fn sessions_needing_extraction(&self, min_new_messages: usize) -> (r: Vec<String>)
        ensures
            crate::text::strs_view(r@) == needing(self@, min_new_messages as int),
    {
        let mut out: Vec<String> = Vec::new();
        let mut i: usize = 0;
        proof {
            assert(crate::text::strs_view(out@) =~= needing(self@.take(0), min_new_messages as int));
        }
        while i < self.sessions.len()
            invariant
                i <= self.sessions@.len(),
                crate::text::strs_view(out@) == needing(
                    self@.take(i as int),
                    min_new_messages as int,
                ),
            decreases self.sessions@.len() - i,
        {
            let entry = &self.sessions[i];
            proof {
                assert(entry@ == self@[i as int]);
            }
            let last_idx: usize = match &entry.meta.last_memory_uuid {
                Some(u) => {
                    let p = crate::order::find_message(&entry.messages, u.as_str());
                    if p < entry.messages.len() {
                        p
                    } else {
                        0
                    }
                },
                None => 0,
            };
            proof {
                assert(last_idx as int == last_mem_idx(entry@));
            }
            let new_count = entry.messages.len() - last_idx;
            if new_count >= min_new_messages {
                let id = entry.meta.id.clone();
                let ghost ig = id;
                let ghost prev = out@;
                out.push(id);
                proof {
                    assert(out@ == prev.push(ig));
                    assert(crate::text::strs_view(prev).len() == prev.len());
                    assert(self@.take(i + 1 as int).drop_last() =~= self@.take(i as int));
                    assert(self@.take(i + 1 as int).last() == self@[i as int]);
                    assert(needing(self@.take(i as int), min_new_messages as int).len()
                        == prev.len());
                    assert forall|t: int|
                        0 <= t < out@.len() implies #[trigger] crate::text::strs_view(out@)[t]
                        == needing(self@.take(i + 1 as int), min_new_messages as int)[t] by {
                        if t < prev.len() {
                            assert(out@[t] == prev[t]);
                            assert(crate::text::strs_view(prev)[t] == needing(
                                self@.take(i as int),
                                min_new_messages as int,
                            )[t]);
                        } else {
                            assert(out@[t] == ig);
                        }
                    }
                    assert(crate::text::strs_view(out@) =~= needing(
                        self@.take(i + 1 as int),
                        min_new_messages as int,
                    ));
                }
            } else {
                proof {
                    assert(self@.take(i + 1 as int).drop_last() =~= self@.take(i as int));
                    assert(self@.take(i + 1 as int).last() == self@[i as int]);
                    assert(crate::text::strs_view(out@) =~= needing(
                        self@.take(i + 1 as int),
                        min_new_messages as int,
                    ));
                }
            }
            i = i + 1;
        }
        proof {
            assert(self@.take(self@.len() as int) =~= self@);
        }
        out
    }

    /// The session as `append_message` stores it.
    pub open spec fn appended_session(
        &self,
        session_id: Seq<char>,
        project: Seq<char>,
        m: MsgV,
    ) -> SessionV {
        let i = cache_find(self@, session_id);
        let base = if i < self@.len() {
            self@[i]
        } else {
            SessionV {
                meta: MetaV {
                    id: session_id,
                    project: project,
                    title: None,
                    created_at: m.timestamp,
                    updated_at: m.timestamp,
                    message_count: 0,
                    last_memory_uuid: None,
                    source: "primary"@,
                },
                messages: Seq::empty(),
                normalized_path: crate::normalize::canon_path_of(
                    self.normalized_dir@,
                    session_id,
                ),
            }
        };
        let msgs = base.messages.push(m);
        SessionV {
            meta: MetaV {
                message_count: msgs.len() as int,
                created_at: if base.meta.created_at.len() == 0 {
                    m.timestamp
                } else {
                    base.meta.created_at
                },
                updated_at: m.timestamp,
                ..base.meta
            },
            messages: msgs,
            normalized_path: base.normalized_path,
        }
    }

    /// Append one message to a session, creating the session on first use,
    /// and record the change event. The caller persists the message's
    /// canonical line to the session's file before calling, so a crash
    /// between the two loses at most the cache update, never data.
    pub fn append_message(&mut self, session_id: &str, project: &str, message: NormalizedMessage)
        requires
            old(self).wf(),
            old(self).seq_headroom(),
        ensures
            final(self).wf(),
            final(self)@ == upsert_spec(
                old(self)@,
                old(self).appended_session(session_id@, project@, message@),
            ),
            final(self).normalized_dir == old(self).normalized_dir,
            final(self).memory_file == old(self).memory_file,
    {
        let mut session: NormalizedSession = match self.get(session_id) {
            Some(s) => s,
            None => NormalizedSession {
                meta: SessionMeta {
                    id: session_id.to_owned(),
                    project: project.to_owned(),
                    title: None,
                    created_at: message.timestamp.clone(),
                    updated_at: message.timestamp.clone(),
                    message_count: 0,
                    last_memory_uuid: None,
                    source: crate::model::default_source(),
                },
                messages: Vec::new(),
                normalized_path: crate::normalize::canon_path(
                    self.normalized_dir.as_str(),
                    session_id,
                ),
            },
        };
        let ghost base = session@;
        let ghost mg = message@;
        let ts = message.timestamp.clone();
        let ghost prevmsgs = session.messages@;
        session.messages.push(message);
        proof {
            assert(session.messages@ == prevmsgs.push(message));
            assert forall|t: int|
                0 <= t < session.messages@.len() implies #[trigger] msgs_view(session.messages@)[t]
                == base.messages.push(mg)[t] by {
                if t < prevmsgs.len() {
                    assert(session.messages@[t] == prevmsgs[t]);
                    assert(msgs_view(prevmsgs)[t] == base.messages[t]);
                } else {
                    assert(session.messages@[t] == message);
                }
            }
            assert(msgs_view(session.messages@) =~= base.messages.push(mg));
        }
        session.meta.message_count = session.messages.len();
        if session.meta.created_at.as_str().is_empty() {
            session.meta.created_at = ts.clone();
        }
        session.meta.updated_at = ts;
        proof {
            let app = old(self).appended_session(session_id@, project@, mg);
            assert(base.messages.len() == prevmsgs.len());
            assert(session@.messages == app.messages);
            assert(session@.meta.id == app.meta.id);
            assert(session@.meta.project == app.meta.project);
            assert(session@.meta.title == app.meta.title);
            assert(session@.meta.created_at == app.meta.created_at);
            assert(session@.meta.updated_at == app.meta.updated_at);
            assert(session@.meta.message_count == app.meta.message_count);
            assert(session@.meta.last_memory_uuid == app.meta.last_memory_uuid);
            assert(session@.meta.source == app.meta.source);
            assert(session@.normalized_path == app.normalized_path);
            assert(session@ == app);
            assert(wf_session(session@));
        }
        self.upsert(session);
    }

    /// The messages past the extraction watermark, at most `max_messages`
    /// of them, when the session is cached.
    pub fn get_messages_for_extraction(&self, session_id: &str, max_messages: usize) -> (r: Option<
        Vec<NormalizedMessage>,
    >)
        ensures
            match r {
                Some(ms) => {
                    let i = cache_find(self@, session_id@);
                    i < self@.len() && {
                        let sv = self@[i];
                        let start = match sv.meta.last_memory_uuid {
                            Some(u) => if crate::order::find_uuid(sv.messages, u)
                                < sv.messages.len() {
                                crate::order::find_uuid(sv.messages, u) + 1
                            } else {
                                0
                            },
                            None => 0,
                        };
                        msgs_view(ms@) == sv.messages.skip(start).take(
                            if max_messages as int <= sv.messages.len() - start {
                                max_messages as int
                            } else {
                                sv.messages.len() - start
                            },
                        )
                    }
                },
                None => cache_find(self@, session_id@) == self@.len(),
            },
    {
        let i = self.find(session_id);
        if i >= self.sessions.len() {
            return None;
        }
        let entry = &self.sessions[i];
        proof {
            assert(entry@ == self@[i as int]);
        }
        let start: usize = match &entry.meta.last_memory_uuid {
            Some(u) => {
                let p = crate::order::find_message(&entry.messages, u.as_str());
                if p < entry.messages.len() {
                    p + 1
                } else {
                    0
                }
            },
            None => 0,
        };
        let ghost sv = entry@;
        let ghost count = if max_messages as int <= sv.messages.len() - start {
            max_messages as int
        } else {
            sv.messages.len() - start
        };
        let mut out: Vec<NormalizedMessage> = Vec::new();
        let mut t: usize = start;
        proof {
            assert(msgs_view(out@) =~= sv.messages.skip(start as int).take(0));
        }
        while t < entry.messages.len() && t - start < max_messages
            invariant
                start <= t <= entry.messages@.len(),
                t - start <= max_messages,
                sv == entry@,
                entry@ == self@[i as int],
                i < self@.len(),
                sv.messages.len() == entry.messages@.len(),
                msgs_view(out@) == sv.messages.skip(start as int).take(t - start),
            decreases entry.messages@.len() - t,
        {
            let c = crate::model::clone_message(&entry.messages[t]);
            let ghost cg = c;
            let ghost prev = out@;
            out.push(c);
            proof {
                assert(out@ == prev.push(cg));
                assert(msgs_view(prev).len() == prev.len());
                assert(cg@ == sv.messages[t as int]);
                assert forall|u: int|
                    0 <= u < out@.len() implies #[trigger] msgs_view(out@)[u] == sv.messages.skip(
                    start as int,
                ).take(t - start + 1)[u] by {
                    if u < prev.len() {
                        assert(out@[u] == prev[u]);
                        assert(msgs_view(prev)[u] == sv.messages.skip(start as int).take(
                            t - start,
                        )[u]);
                    } else {
                        assert(out@[u] == cg);
                        assert(sv.messages.skip(start as int)[u] == sv.messages[start + u]);
                    }
                }
                assert(msgs_view(out@) =~= sv.messages.skip(start as int).take(t - start + 1));
            }
            t = t + 1;
        }
        proof {
            assert(msgs_view(out@) =~= sv.messages.skip(start as int).take(count));
        }
        Some(out)
    }
}


/// Cache consistency: after any upsert, the session found under the id has
/// a message count equal to its message list's length, and its metadata is
/// among the listed rows.
pub proof fn lemma_cache_consistency(pre: Seq<SessionV>, s: SessionV)
    requires
        forall|i: int| 0 <= i < pre.len() ==> wf_session(#[trigger] pre[i]),
        forall|i: int, j: int|
            0 <= i < j < pre.len() ==> #[trigger] pre[i].meta.id != #[trigger] pre[j].meta.id,
        wf_session(s),
    ensures
        ({
            let post = upsert_spec(pre, s);
            let i = cache_find(post, s.meta.id);
            &&& i < post.len()
            &&& post[i].meta.message_count == post[i].messages.len()
            &&& metas_of(post)[i].id == s.meta.id
        }),
{
    let post = upsert_spec(pre, s);
    let i0 = cache_find(pre, s.meta.id);
    let m = merged_session(pre, s);
    lemma_cache_find_bounds(pre, s.meta.id);
    assert(m.meta.id == s.meta.id);
    assert(wf_session(m));
    if i0 < pre.len() {
        assert(post == pre.update(i0, m));
        assert forall|k: int| 0 <= k < i0 implies post[k].meta.id != s.meta.id by {
            assert(post[k] == pre[k]);
        }
        lemma_cache_find_skip(post, s.meta.id, i0);
        assert(post.skip(i0)[0] == post[i0]);
        assert(cache_find(post, s.meta.id) == i0);
        assert(metas_of(post)[i0] == post[i0].meta);
    } else {
        assert(post == pre.push(m));
        assert forall|k: int| 0 <= k < pre.len() implies post[k].meta.id != s.meta.id by {
            assert(post[k] == pre[k]);
        }
        lemma_cache_find_skip(post, s.meta.id, pre.len() as int);
        assert(post.skip(pre.len() as int)[0] == post[pre.len() as int]);
        assert(cache_find(post, s.meta.id) == pre.len());
        assert(metas_of(post)[pre.len() as int] == post[pre.len() as int].meta);
    }
}

/// Title preservation: upserting a session whose new parse has no title,
/// over a cached session that has one, keeps the cached title.
pub proof fn lemma_title_preserved(pre: Seq<SessionV>, s: SessionV)
    requires
        s.meta.title is None,
        cache_find(pre, s.meta.id) < pre.len(),
        pre[cache_find(pre, s.meta.id)].meta.title is Some,
    ensures
        ({
            let i = cache_find(pre, s.meta.id);
            upsert_spec(pre, s)[i].meta.title == pre[i].meta.title
        }),
{
    lemma_cache_find_bounds(pre, s.meta.id);
}

} // verus!
