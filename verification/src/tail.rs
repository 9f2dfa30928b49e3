//! The tail protocol: given the bytes of a canonical file and a byte
//! offset, the complete new lines and the next offset. A line still being
//! written (no trailing newline yet) is withheld; the offset only counts
//! bytes of complete lines, so a later call never re-reads or skips.
//! Beside it, the per-stream state machine that resets the offset when a
//! rewritten file's modification time changes.

use vstd::prelude::*;

use crate::text::{dec_text, u64_to_string};

verus! {

/// One past the last newline of `s`, or zero when `s` has none: how many
/// bytes of `s` belong to complete lines.
pub open spec fn last_nl_end(s: Seq<u8>) -> int
    decreases s.len(),
{
    if s.len() == 0 {
        0
    } else if s.last() == 10u8 {
        s.len() as int
    } else {
        last_nl_end(s.drop_last())
    }
}

/// The non-empty lines of a complete region (one that is empty or ends in a
/// newline), without their newlines.
pub open spec fn split_lines(s: Seq<u8>) -> Seq<Seq<u8>>
    decreases s.len(),
{
    if s.len() == 0 {
        Seq::empty()
    } else {
        let st0 = last_nl_end(s.drop_last());
        let st = if 0 <= st0 <= s.len() - 1 {
            st0
        } else {
            0
        };
        let line = s.subrange(st, s.len() - 1);
        split_lines(s.take(st)) + (if line.len() > 0 {
            seq![line]
        } else {
            Seq::<Seq<u8>>::empty()
        })
    }
}

/// Bytes after `offset` belong to complete lines up to here.
proof fn lemma_last_nl(s: Seq<u8>, k: int)
    requires
        0 <= k <= s.len(),
        forall|t: int| k <= t < s.len() ==> s[t] != 10u8,
        k == 0 || s[k - 1] == 10u8,
    ensures
        last_nl_end(s) == k,
    decreases s.len(),
{
    if s.len() > 0 {
        if s.last() == 10u8 {
            assert(k == s.len());
        } else {
            assert(k < s.len());
            lemma_last_nl(s.drop_last(), k);
        }
    }
}

/// The images of a byte-line list.
pub open spec fn bytes_view(s: Seq<Vec<u8>>) -> Seq<Seq<u8>> {
    s.map_values(|v: Vec<u8>| v@)
}

/// Read the complete new lines of a canonical file. `data` is the whole
/// file's bytes and `offset` where the last read stopped; the result is the
/// non-empty complete lines after `offset` and the offset just past the
/// last complete line. A trailing line without its newline is withheld.
pub fn read_from_offset(data: &Vec<u8>, offset: usize) -> (r: (Vec<Vec<u8>>, usize))
    ensures
        offset <= data@.len() ==> {
            &&& r.1 as int == offset + last_nl_end(data@.skip(offset as int))
            &&& bytes_view(r.0@) == split_lines(data@.subrange(offset as int, r.1 as int))
            &&& offset <= r.1 <= data@.len()
        },
        offset > data@.len() ==> r.1 == offset && r.0@.len() == 0,
{
    if offset >= data.len() {
        proof {
            if offset <= data@.len() {
                assert(data@.skip(offset as int).len() == 0);
                assert(data@.subrange(offset as int, offset as int).len() == 0);
                assert(bytes_view(Seq::<Vec<u8>>::empty()) =~= split_lines(
                    data@.subrange(offset as int, offset as int),
                ));
            }
        }
        return (Vec::new(), offset);
    }
    let mut lines: Vec<Vec<u8>> = Vec::new();
    let mut cur: Vec<u8> = Vec::new();
    let mut st: usize = offset;
    let mut i: usize = offset;
    proof {
        assert(bytes_view(lines@) =~= split_lines(data@.subrange(offset as int, offset as int)));
        assert(cur@ =~= data@.subrange(offset as int, offset as int));
    }
    while i < data.len()
        invariant
            offset <= st <= i <= data@.len(),
            cur@ == data@.subrange(st as int, i as int),
            forall|t: int| st <= t < i ==> data@[t] != 10u8,
            st == offset || data@[st - 1] == 10u8,
            bytes_view(lines@) == split_lines(data@.subrange(offset as int, st as int)),
        decreases data@.len() - i,
    {
        let b = data[i];
        if b == 10u8 {
            let ghost region = data@.subrange(offset as int, i + 1 as int);
            proof {
                assert(region.drop_last() =~= data@.subrange(offset as int, i as int));
                assert(forall|t: int|
                    st - offset <= t < i - offset ==> #[trigger] region.drop_last()[t] != 10u8);
                assert(st == offset || region.drop_last()[st - offset - 1] == 10u8);
                lemma_last_nl(region.drop_last(), st - offset);
                assert(region.take(st - offset) =~= data@.subrange(offset as int, st as int));
                assert(region.subrange(st - offset, region.len() - 1) =~= data@.subrange(
                    st as int,
                    i as int,
                ));
            }
            if cur.len() > 0 {
                let ghost cg = cur;
                let ghost prev = lines@;
                lines.push(cur);
                cur = Vec::new();
                proof {
                    assert(lines@ == prev.push(cg));
                    assert(bytes_view(prev).len() == prev.len());
                    assert forall|t: int|
                        0 <= t < lines@.len() implies #[trigger] bytes_view(lines@)[t]
                        == split_lines(region)[t] by {
                        if t < prev.len() {
                            assert(lines@[t] == prev[t]);
                            assert(bytes_view(prev)[t] == split_lines(
                                data@.subrange(offset as int, st as int),
                            )[t]);
                        } else {
                            assert(lines@[t] == cg);
                        }
                    }
                    assert(bytes_view(lines@) =~= split_lines(region));
                }
            } else {
                cur = Vec::new();
                proof {
                    assert(bytes_view(lines@) =~= split_lines(region));
                }
            }
            st = i + 1;
            proof {
                assert(cur@ =~= data@.subrange(st as int, st as int));
            }
        } else {
            cur.push(b);
            proof {
                assert(cur@ =~= data@.subrange(st as int, i + 1 as int));
            }
        }
        i = i + 1;
    }
    proof {
        let rel = data@.skip(offset as int);
        assert(forall|t: int| st - offset <= t < rel.len() ==> #[trigger] rel[t] != 10u8);
        assert(st == offset || rel[st - offset - 1] == 10u8);
        lemma_last_nl(rel, st - offset);
    }
    (lines, st)
}

/// Growing a file by whole lines moves the offset by exactly their length:
/// reading the grown file from the old end yields exactly the new lines,
/// and reading again with no further growth yields nothing and the same
/// offset.
pub proof fn lemma_tail_monotonic(data: Seq<u8>, ext: Seq<u8>)
    requires
        ext.len() == 0 || ext.last() == 10u8,
        last_nl_end(ext) == ext.len(),
    ensures
        last_nl_end((data + ext).skip(data.len() as int)) == ext.len(),
        split_lines((data + ext).subrange(data.len() as int, (data + ext).len() as int))
            == split_lines(ext),
        last_nl_end((data + ext).skip((data + ext).len() as int)) == 0,
{
    assert((data + ext).skip(data.len() as int) =~= ext);
    assert((data + ext).subrange(data.len() as int, (data + ext).len() as int) =~= ext);
    assert((data + ext).skip((data + ext).len() as int) =~= Seq::<u8>::empty());
}

/// Ghost image of the per-stream tail state.
pub ghost struct TailStateV {
    pub offset: int,
    pub last_mtime: Option<int>,
    pub missing_logged: bool,
    pub append_only: bool,
}

/// Per-stream state of the tail loop: the reading offset within the current
/// file epoch, the modification time the epoch was entered at, whether the
/// file was reported missing, and whether the file only ever grows (then
/// rewrite detection is skipped as a pure optimization).
pub struct TailState {
    pub offset: usize,
    pub last_mtime: Option<u64>,
    pub missing_logged: bool,
    pub append_only: bool,
}

impl View for TailState {
    type V = TailStateV;

    open spec fn view(&self) -> TailStateV {
        TailStateV {
            offset: self.offset as int,
            last_mtime: match self.last_mtime {
                Some(t) => Some(t as int),
                None => None,
            },
            missing_logged: self.missing_logged,
            append_only: self.append_only,
        }
    }
}

/// What one poll decides, before any read: the state after the decision and
/// whether to read (None means only a keepalive goes out).
pub open spec fn tail_prepare_spec(st: TailStateV, status: Option<int>) -> (TailStateV, Option<
    int,
>) {
    match status {
        None => (
            TailStateV {
                offset: st.offset,
                last_mtime: st.last_mtime,
                missing_logged: true,
                append_only: st.append_only,
            },
            None,
        ),
        Some(mtime) => {
            let st1 = if st.missing_logged {
                TailStateV {
                    offset: 0,
                    last_mtime: Some(mtime),
                    missing_logged: false,
                    append_only: st.append_only,
                }
            } else {
                st
            };
            let st2 = if !st1.append_only {
                if st1.last_mtime != Some(mtime) {
                    TailStateV {
                        offset: 0,
                        last_mtime: Some(mtime),
                        missing_logged: st1.missing_logged,
                        append_only: st1.append_only,
                    }
                } else {
                    st1
                }
            } else {
                if st1.last_mtime is None {
                    TailStateV {
                        offset: st1.offset,
                        last_mtime: Some(mtime),
                        missing_logged: st1.missing_logged,
                        append_only: st1.append_only,
                    }
                } else {
                    st1
                }
            };
            (st2, Some(st2.offset))
        },
    }
}

/// Decide one poll step. `status` is the file's modification time, or
/// nothing when the file does not exist yet: then the stream waits; a
/// changed time on a rewritten-wholesale file resets the offset to zero
/// (the client dedupes by message id across the reset).
pub fn tail_prepare(st: &mut TailState, status: Option<u64>) -> (read_from: Option<usize>)
    ensures
        ({
            let (sv, rd) = tail_prepare_spec(
                old(st)@,
                match status {
                    Some(t) => Some(t as int),
                    None => None,
                },
            );
            final(st)@ == sv && (match read_from {
                Some(o) => rd == Some(o as int),
                None => rd is None,
            })
        }),
{
    match status {
        None => {
            st.missing_logged = true;
            None
        },
        Some(mtime) => {
            if st.missing_logged {
                st.missing_logged = false;
                st.offset = 0;
                st.last_mtime = Some(mtime);
            }
            if !st.append_only {
                let same = match st.last_mtime {
                    Some(last) => last == mtime,
                    None => false,
                };
                if !same {
                    st.offset = 0;
                    st.last_mtime = Some(mtime);
                }
            } else {
                if st.last_mtime.is_none() {
                    st.last_mtime = Some(mtime);
                }
            }
            Some(st.offset)
        },
    }
}

/// Record where a read stopped.
pub fn tail_advance(st: &mut TailState, new_offset: usize)
    ensures
        final(st)@ == (TailStateV { offset: new_offset as int, ..old(st)@ }),
{
    st.offset = new_offset;
}

/// What the cursor encoder returns: base64 text of the given text.
pub uninterp spec fn b64_of(s: Seq<char>) -> Seq<char>;

/// Relies on base64's URL-safe no-padding engine: the encoding is a
/// function of the input bytes alone.
#[verifier::external_body]
fn b64_encode(s: &str) -> (r: String)
    ensures
        r@ == b64_of(s@),
{
    <base64::engine::general_purpose::GeneralPurpose as base64::Engine>::encode(
        &base64::engine::general_purpose::URL_SAFE_NO_PAD,
        s.as_bytes(),
    )
}

/// The opaque cursor clients resume from: the offset's decimal text,
/// base64-encoded.
pub fn encode_cursor(offset: u64) -> (r: String)
    ensures
        r@ == b64_of(dec_text(offset as nat)),
{
    let s = u64_to_string(offset);
    b64_encode(s.as_str())
}

} // verus!
