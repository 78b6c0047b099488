//! Word-frequency aggregation: parse per-document frequency tables,
//! merge the counts into one table, sort it, and render it as text.
pub mod idlist;
pub mod numeric;
pub mod output;
pub mod pipeline;
pub mod record;
pub mod sort;
pub mod table;
pub mod text;

use vstd::prelude::*;

verus! {

/// Number of Unicode scalar values in a string (not its byte length).
pub fn string_length(s: &str) -> (n: usize)
    ensures
        n == s@.len(),
{
    s.unicode_len()
}

} // verus!
