//! A session normalization engine: three incompatible, semi-structured
//! JSONL transcript formats are parsed into one canonical message stream,
//! written as one canonical file per session, cached in an id-keyed table
//! that every reader consults, and served to streaming clients through an
//! offset-based tail protocol.
//!
//! The library is the computing core; reading and writing files, watching
//! directories and serving clients stay with the caller, which hands the
//! library plain values and takes plain values back.

use vstd::prelude::*;

pub mod cache;
pub mod canon;
pub mod primary;
pub mod codex;
pub mod json;
pub mod model;
pub mod normalize;
pub mod order;
pub mod pi;
pub mod tail;
pub mod text;
pub mod timefmt;
pub mod track;

verus! {

} // verus!
