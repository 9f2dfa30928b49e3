//! Timestamps. Sources carry either a pre-formatted timestamp string,
//! which passes through unchanged, or a unix-epoch millisecond count,
//! which is rendered to an RFC 3339 string. The rendering itself is
//! chrono's; what this library guarantees is that it is applied to exactly
//! the parsed value, so the same raw line always yields the same text.

use vstd::prelude::*;

use crate::json::{JsonNode, JsonV};
use crate::text::{int_read_cap, leading_int, parse_leading_i64};

verus! {

/// Upper bound (in whole seconds) up to which this library renders
/// timestamps; far inside chrono's own range.
pub open spec fn ts_secs_cap() -> int {
    8_000_000_000_000
}

/// The RFC 3339 text, with millisecond precision and a "Z" suffix, of the
/// instant `secs` seconds and `nanos` nanoseconds after the unix epoch.
pub uninterp spec fn rfc3339_millis(secs: int, nanos: int) -> Seq<char>;

/// Relies on chrono's DateTime::from_timestamp and to_rfc3339_opts: the
/// rendered text is a function of the two arguments alone, and within the
/// required range from_timestamp is documented to succeed (the range stays
/// far below chrono's year cap, and the nanosecond part below one second).
#[verifier::external_body]
fn format_unix_to_rfc3339(secs: i64, nanos: u32) -> (r: String)
    requires
        0 <= secs <= ts_secs_cap(),
        nanos < 1_000_000_000,
    ensures
        r@ == rfc3339_millis(secs as int, nanos as int),
{
    match chrono::DateTime::from_timestamp(secs, nanos) {
        Some(dt) => dt.to_rfc3339_opts(chrono::SecondsFormat::Millis, true),
        None => String::new(),
    }
}

/// What a source timestamp value denotes: a string passes through; a
/// non-negative millisecond count inside the renderable range is rendered;
/// everything else reads as the empty text.
pub open spec fn timestamp_of(j: JsonV) -> Seq<char> {
    match j {
        JsonV::Str(s) => s,
        JsonV::Num(txt) => match leading_int(txt) {
            Some(v) => if 0 <= v && v / 1000 <= ts_secs_cap() && v < int_read_cap() {
                rfc3339_millis(v / 1000, (v % 1000) * 1_000_000)
            } else {
                Seq::empty()
            },
            None => Seq::empty(),
        },
        _ => Seq::empty(),
    }
}

/// Render a source timestamp value to its canonical text.
pub fn timestamp_string(node: &JsonNode) -> (r: String)
    ensures
        r@ == timestamp_of(node@),
{
    match node {
        JsonNode::Str(s) => s.clone(),
        JsonNode::Num(txt) => {
            match parse_leading_i64(txt.as_str()) {
                Some(v) => {
                    if v >= 0 && v / 1000 <= 8_000_000_000_000i64 {
                        let secs: i64 = v / 1000;
                        let rem: i64 = v % 1000;
                        format_unix_to_rfc3339(secs, (rem as u32) * 1_000_000)
                    } else {
                        String::new()
                    }
                },
                None => String::new(),
            }
        },
        _ => String::new(),
    }
}

} // verus!
