//! A word-frequency analyzer: text is split into words on a fixed set of
//! separator characters plus Unicode whitespace, short and purely numeric
//! words and words from user-supplied ignore lists are filtered out, the
//! rest are counted, and the counts are sorted, truncated to a top-N and
//! summed for reporting.

pub mod args;
pub mod chars;
pub mod counts;
pub mod ignore;
pub mod numeric;
pub mod pipeline;
pub mod report;
pub mod split;
pub mod stats;
