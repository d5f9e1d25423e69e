//! The run configuration: which report to produce, how many results to
//! keep, the minimum word length, and which files to read. Paths are held
//! as plain strings; reading them is the caller's concern.

use vstd::prelude::*;

verus! {

/// The two report modes.
pub enum Command {
    /// Show word statistics.
    Stats,
    /// Generate a flat list of words, each repeated as often as it occurs.
    Words,
}

/// One run's configuration.
pub struct Args {
    /// Which report to produce.
    pub command: Command,
    /// Limit the number of results.
    pub top: Option<usize>,
    /// Minimum word size to consider.
    pub minimum_word_length: usize,
    /// Files with words to ignore, one word per line.
    pub ignored_words_files: Option<Vec<String>>,
    /// Files to analyze.
    pub files: Vec<String>,
}

} // verus!
