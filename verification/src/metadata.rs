//! Summary counters kept beside the archive.

use vstd::prelude::*;

verus! {

/// The current quote index and the number of stored quotes.
#[derive(Debug, Clone, Copy, PartialEq, Eq, Structural)]
pub struct Metadata {
    pub current_quote_index: u64,
    pub num_quotes: u64,
}

impl Metadata {
    /// The counter this metadata holds.
    pub open spec fn index_spec(self) -> u64 {
        self.current_quote_index
    }

    /// Fresh metadata: no quotes yet, counter at zero.
    pub fn new() -> (r: Metadata)
        ensures
            r.index_spec() == 0,
            r.num_quotes == 0,
    {
        Metadata { current_quote_index: 0, num_quotes: 0 }
    }

    /// Advances the quote counter by one.
    pub fn increment_quote_index(&mut self)
        requires
            old(self).index_spec() < u64::MAX,
        ensures
            final(self).index_spec() == old(self).index_spec() + 1,
            final(self).num_quotes == old(self).num_quotes,
    {
        self.current_quote_index = self.current_quote_index + 1;
    }

    /// The current quote counter.
    pub fn get_quote_index(&self) -> (r: u64)
        ensures
            r == self.index_spec(),
    {
        self.current_quote_index
    }

    /// Counts one more stored quote.
    pub fn increment_quotes(&mut self)
        requires
            old(self).num_quotes < u64::MAX,
        ensures
            final(self).num_quotes == old(self).num_quotes + 1,
            final(self).index_spec() == old(self).index_spec(),
    {
        self.num_quotes = self.num_quotes + 1;
    }

    /// Counts one stored quote fewer.
    pub fn decrement_quotes(&mut self)
        requires
            old(self).num_quotes > 0,
        ensures
            final(self).num_quotes == old(self).num_quotes - 1,
            final(self).index_spec() == old(self).index_spec(),
    {
        self.num_quotes = self.num_quotes - 1;
    }
}

} // verus!
