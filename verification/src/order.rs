//! Ordering of canonical messages: the stable sort by timestamp text that
//! fixes the final order of every session, and the id-keyed message list
//! with last-write-wins updates that the parsers accumulate into.

use vstd::prelude::*;

use crate::model::{msgs_view, MsgV, NormalizedMessage};
use crate::text::{lex_le, str_le};

verus! {

/// Insert `m` behind every message whose timestamp is not greater: the
/// insertion step of a stable insertion sort.
pub open spec fn insert_sorted(m: MsgV, s: Seq<MsgV>) -> Seq<MsgV>
    decreases s.len(),
{
    if s.len() == 0 {
        seq![m]
    } else if lex_le(s.last().timestamp, m.timestamp) {
        s.push(m)
    } else {
        insert_sorted(m, s.drop_last()).push(s.last())
    }
}

/// Stable sort by timestamp text: messages are processed in input order
/// and each is placed behind its equals, so equal timestamps keep their
/// input order.
pub open spec fn sort_by_ts(s: Seq<MsgV>) -> Seq<MsgV>
    decreases s.len(),
{
    if s.len() == 0 {
        Seq::empty()
    } else {
        insert_sorted(s.last(), sort_by_ts(s.drop_last()))
    }
}

/// Where the scan of the insertion step stops, the spec insert splits the
/// sequence there.
proof fn lemma_insert_at(m: MsgV, s: Seq<MsgV>, j: int)
    requires
        0 <= j <= s.len(),
        j == 0 || lex_le(s[j - 1].timestamp, m.timestamp),
        forall|k: int| j <= k < s.len() ==> !lex_le(#[trigger] s[k].timestamp, m.timestamp),
    ensures
        insert_sorted(m, s) == s.take(j) + seq![m] + s.skip(j),
    decreases s.len(),
{
    if j == s.len() {
        if s.len() == 0 {
            assert(insert_sorted(m, s) =~= s.take(j) + seq![m] + s.skip(j));
        } else {
            assert(lex_le(s.last().timestamp, m.timestamp));
            assert(s.push(m) =~= s.take(j) + seq![m] + s.skip(j));
        }
    } else {
        assert(!lex_le(s.last().timestamp, m.timestamp));
        let st = s.drop_last();
        assert(forall|k: int|
            j <= k < st.len() ==> !lex_le(#[trigger] st[k].timestamp, m.timestamp));
        assert(j == 0 || lex_le(st[j - 1].timestamp, m.timestamp));
        lemma_insert_at(m, st, j);
        assert(insert_sorted(m, st).push(s.last()) =~= s.take(j) + seq![m] + s.skip(j));
    }
}

/// Sort messages into timestamp order, stably.
pub fn sort_messages(msgs: Vec<NormalizedMessage>) -> (r: Vec<NormalizedMessage>)
    ensures
        msgs_view(r@) == sort_by_ts(msgs_view(msgs@)),
{
    let ghost orig = msgs_view(msgs@);
    let mut rest = msgs;
    let mut out: Vec<NormalizedMessage> = Vec::new();
    let ghost total = orig.len();
    proof {
        assert(orig.take(0) =~= Seq::<MsgV>::empty());
        assert(msgs_view(rest@) =~= orig.skip(0));
    }
    loop
        invariant
            msgs_view(out@) == sort_by_ts(orig.take(total - rest@.len())),
            msgs_view(rest@) == orig.skip(total - rest@.len()),
            rest@.len() <= total,
            total == orig.len(),
        ensures
            rest@.len() == 0,
            msgs_view(out@) == sort_by_ts(orig.take(total as int)),
        decreases rest@.len(),
    {
        if rest.len() == 0 {
            proof {
                assert(orig.take(total - rest@.len()) =~= orig.take(total as int));
            }
            break ;
        }
        let ghost k = total - rest@.len();
        let ghost prev = rest@;
        let m = rest.remove(0);
        proof {
            assert(rest@ =~= prev.drop_first());
            assert(msgs_view(prev)[0] == prev[0]@);
            assert(m@ == orig.skip(k)[0]);
            assert(m@ == orig[k]);
            assert forall|t: int| 0 <= t < rest@.len() implies msgs_view(rest@)[t] == orig.skip(
                k + 1,
            )[t] by {
                assert(rest@[t] == prev[t + 1]);
                assert(msgs_view(prev)[t + 1] == prev[t + 1]@);
                assert(msgs_view(prev)[t + 1] == orig.skip(k)[t + 1]);
            }
            assert(msgs_view(rest@) =~= orig.skip(k + 1));
        }
        let ghost before = msgs_view(out@);
        let mut j: usize = out.len();
        loop
            invariant
                j <= out@.len(),
                before == msgs_view(out@),
                forall|t: int|
                    j <= t < before.len() ==> !lex_le(
                        #[trigger] before[t].timestamp,
                        m@.timestamp,
                    ),
            ensures
                j <= out@.len(),
                before == msgs_view(out@),
                j == 0 || lex_le(before[j - 1].timestamp, m@.timestamp),
                forall|t: int|
                    j <= t < before.len() ==> !lex_le(
                        #[trigger] before[t].timestamp,
                        m@.timestamp,
                    ),
            decreases j,
        {
            if j == 0 {
                break ;
            }
            if str_le(out[j - 1].timestamp.as_str(), m.timestamp.as_str()) {
                break ;
            }
            proof {
                assert(before[j - 1].timestamp == out@[j - 1 as int]@.timestamp);
            }
            j = j - 1;
        }
        proof {
            lemma_insert_at(m@, before, j as int);
        }
        out.insert(j, m);
        proof {
            assert(msgs_view(out@) =~= before.take(j as int) + seq![m@] + before.skip(j as int));
            assert(orig.take(k + 1).drop_last() =~= orig.take(k));
            assert(orig.take(k + 1).last() == orig[k]);
            assert(msgs_view(out@) == sort_by_ts(orig.take(k + 1)));
        }
    }
    proof {
        assert(orig.take(total as int) =~= orig);
    }
    out
}

/// Messages in timestamp order: no later message has an earlier timestamp.
pub open spec fn ts_sorted(s: Seq<MsgV>) -> bool {
    forall|i: int, j: int|
        0 <= i < j < s.len() ==> lex_le(#[trigger] s[i].timestamp, #[trigger] s[j].timestamp)
}

/// Inserting into a sorted list keeps it sorted, and adds only the new
/// message.
proof fn lemma_insert_sorted_props(m: MsgV, s: Seq<MsgV>)
    requires
        ts_sorted(s),
    ensures
        ts_sorted(insert_sorted(m, s)),
        insert_sorted(m, s).len() == s.len() + 1,
        forall|k: int|
            0 <= k < insert_sorted(m, s).len() ==> #[trigger] insert_sorted(m, s)[k] == m
                || s.contains(insert_sorted(m, s)[k]),
    decreases s.len(),
{
    let r = insert_sorted(m, s);
    if s.len() == 0 {
        assert(r =~= seq![m]);
    } else if lex_le(s.last().timestamp, m.timestamp) {
        assert(r =~= s.push(m));
        assert forall|i: int, j: int|
            0 <= i < j < r.len() implies lex_le(
            #[trigger] r[i].timestamp,
            #[trigger] r[j].timestamp,
        ) by {
            if j < s.len() {
            } else {
                if i < s.len() - 1 {
                    assert(lex_le(s[i].timestamp, s.last().timestamp));
                    crate::text::lemma_lex_le_trans(
                        s[i].timestamp,
                        s.last().timestamp,
                        m.timestamp,
                    );
                }
            }
        }
        assert forall|k: int| 0 <= k < r.len() implies #[trigger] r[k] == m || s.contains(
            r[k],
        ) by {
            if k < s.len() {
                assert(r[k] == s[k]);
            }
        }
    } else {
        let sd = s.drop_last();
        assert(ts_sorted(sd)) by {
            assert(forall|i: int, j: int|
                0 <= i < j < sd.len() ==> lex_le(
                    #[trigger] s[i].timestamp,
                    #[trigger] s[j].timestamp,
                ));
        }
        lemma_insert_sorted_props(m, sd);
        let rp = insert_sorted(m, sd);
        assert(r =~= rp.push(s.last()));
        crate::text::lemma_lex_le_total(s.last().timestamp, m.timestamp);
        assert(lex_le(m.timestamp, s.last().timestamp));
        assert forall|i: int, j: int|
            0 <= i < j < r.len() implies lex_le(
            #[trigger] r[i].timestamp,
            #[trigger] r[j].timestamp,
        ) by {
            if j < rp.len() {
                assert(r[i] == rp[i] && r[j] == rp[j]);
            } else {
                assert(r[j] == s.last());
                assert(r[i] == rp[i]);
                if rp[i] == m {
                } else {
                    assert(sd.contains(rp[i]));
                    let t = choose|t: int| 0 <= t < sd.len() && sd[t] == rp[i];
                    assert(s[t] == rp[i]);
                    if t < s.len() - 1 {
                        assert(lex_le(s[t].timestamp, s.last().timestamp));
                    }
                }
            }
        }
        assert forall|k: int| 0 <= k < r.len() implies #[trigger] r[k] == m || s.contains(
            r[k],
        ) by {
            if k < rp.len() {
                assert(r[k] == rp[k]);
                if rp[k] != m {
                    assert(sd.contains(rp[k]));
                    let t = choose|t: int| 0 <= t < sd.len() && sd[t] == rp[k];
                    assert(s[t] == rp[k]);
                }
            } else {
                assert(r[k] == s.last());
                assert(s[s.len() - 1] == s.last());
            }
        }
    }
}

/// The stable sort's output is in timestamp order.
pub proof fn lemma_sort_by_ts_sorted(s: Seq<MsgV>)
    ensures
        ts_sorted(sort_by_ts(s)),
    decreases s.len(),
{
    if s.len() > 0 {
        lemma_sort_by_ts_sorted(s.drop_last());
        lemma_insert_sorted_props(s.last(), sort_by_ts(s.drop_last()));
    }
}

/// Index of the first message with the given id, or the length when none
/// has it.
pub open spec fn find_uuid(s: Seq<MsgV>, id: Seq<char>) -> int
    decreases s.len(),
{
    if s.len() == 0 {
        0
    } else if s[0].uuid == id {
        0
    } else {
        1 + find_uuid(s.drop_first(), id)
    }
}

/// Last write wins: a message replaces the entry with its id, keeping that
/// entry's place, or goes to the end when its id is new.
pub open spec fn upsert_msg(s: Seq<MsgV>, m: MsgV) -> Seq<MsgV> {
    let i = find_uuid(s, m.uuid);
    if i < s.len() {
        s.update(i, m)
    } else {
        s.push(m)
    }
}

/// Add `m` to the list, replacing any earlier message with the same id.
pub fn upsert_message(msgs: &mut Vec<NormalizedMessage>, m: NormalizedMessage)
    ensures
        msgs_view(final(msgs)@) == upsert_msg(msgs_view(old(msgs)@), m@),
{
    let ghost vs = msgs_view(msgs@);
    let mut i: usize = 0;
    proof {
        assert(vs.skip(0) =~= vs);
        lemma_find_uuid_skip(vs, m@.uuid, 0);
    }
    loop
        invariant
            i <= msgs@.len(),
            vs == msgs_view(msgs@),
            vs.len() == msgs@.len(),
            find_uuid(vs, m@.uuid) == i + find_uuid(vs.skip(i as int), m@.uuid),
            forall|k: int| 0 <= k < i ==> vs[k].uuid != m@.uuid,
        ensures
            vs == msgs_view(msgs@),
            i == find_uuid(vs, m@.uuid),
            i <= vs.len(),
            i < vs.len() ==> vs[i as int].uuid == m@.uuid,
        decreases msgs@.len() - i,
    {
        if i >= msgs.len() {
            proof {
                assert(vs.skip(i as int).len() == 0);
            }
            break ;
        }
        if msgs[i].uuid == m.uuid {
            proof {
                assert(vs.skip(i as int)[0] == vs[i as int]);
            }
            break ;
        }
        proof {
            assert(vs.skip(i as int)[0] == vs[i as int]);
            assert(vs.skip(i as int).drop_first() =~= vs.skip(i + 1 as int));
        }
        i = i + 1;
    }
    if i < msgs.len() {
        msgs.set(i, m);
        proof {
            assert(msgs_view(msgs@) =~= vs.update(i as int, m@));
        }
    } else {
        msgs.push(m);
        proof {
            assert(msgs_view(msgs@) =~= vs.push(m@));
        }
    }
}

/// Position of the first message with this id, or the length.
pub fn find_message(msgs: &Vec<NormalizedMessage>, id: &str) -> (r: usize)
    ensures
        r as int == find_uuid(msgs_view(msgs@), id@),
        r <= msgs@.len(),
        r < msgs@.len() ==> msgs_view(msgs@)[r as int].uuid == id@,
{
    let ghost vs = msgs_view(msgs@);
    let mut i: usize = 0;
    proof {
        assert(vs.skip(0) =~= vs);
        lemma_find_uuid_skip(vs, id@, 0);
    }
    loop
        invariant
            i <= msgs@.len(),
            vs == msgs_view(msgs@),
            vs.len() == msgs@.len(),
            find_uuid(vs, id@) == i + find_uuid(vs.skip(i as int), id@),
            forall|k: int| 0 <= k < i ==> vs[k].uuid != id@,
        ensures
            vs == msgs_view(msgs@),
            i as int == find_uuid(vs, id@),
            i <= vs.len(),
            i < vs.len() ==> vs[i as int].uuid == id@,
        decreases msgs@.len() - i,
    {
        if i >= msgs.len() {
            proof {
                assert(vs.skip(i as int).len() == 0);
            }
            break ;
        }
        proof {
            assert(vs[i as int] == msgs@[i as int]@);
        }
        if crate::text::str_eq(msgs[i].uuid.as_str(), id) {
            proof {
                assert(vs.skip(i as int)[0] == vs[i as int]);
            }
            break ;
        }
        proof {
            assert(vs.skip(i as int)[0] == vs[i as int]);
            assert(vs.skip(i as int).drop_first() =~= vs.skip(i + 1 as int));
        }
        i = i + 1;
    }
    i
}

/// Splitting the search at a clean prefix shifts the found index.
proof fn lemma_find_uuid_skip(s: Seq<MsgV>, id: Seq<char>, i: int)
    requires
        0 <= i <= s.len(),
        forall|k: int| 0 <= k < i ==> s[k].uuid != id,
    ensures
        find_uuid(s, id) == i + find_uuid(s.skip(i), id),
    decreases i,
{
    if i == 0 {
        assert(s.skip(0) =~= s);
    }
    if i > 0 {
        assert(s[0].uuid != id);
        assert(s.drop_first() =~= s.skip(1));
        assert(forall|k: int| 0 <= k < i - 1 ==> #[trigger] s.skip(1)[k].uuid != id);
        lemma_find_uuid_skip(s.skip(1), id, i - 1);
        assert(s.skip(1).skip(i - 1) =~= s.skip(i));
        assert(find_uuid(s, id) == 1 + find_uuid(s.skip(1), id));
    }
}

} // verus!
