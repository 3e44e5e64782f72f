//! Multi-way merge of sorted term streams.
//!
//! Given N independently sorted, duplicate-free streams of terms (byte
//! sequences), the merge yields one globally sorted, deduplicated stream of
//! terms, each annotated with the ascending list of ordinals of the streams
//! that contain it.

pub mod term;
pub mod queue;
pub mod stream;
pub mod merge;
pub mod fst_stream;
