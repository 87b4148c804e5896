//! Prefix autocompletion over a vocabulary of weighted words.
//!
//! Two indexes answer the same query: a compressed trie that caches the best
//! ranked words below each node, and a plain sorted list that is scanned.
use vstd::prelude::*;

pub mod internal;
pub mod naive;
pub mod ranking;
pub mod suggestion;
pub mod trie;

pub use suggestion::Suggestion;

use crate::ranking::{descending, top_matches, CAP};
use crate::suggestion::{entries, Entry};
use std::rc::Rc;

verus! {

/// The query that every index answers.
pub trait AutoCompletor {
    /// The index is in a state to answer queries.
    spec fn ready(&self) -> bool;

    /// The entries the index holds.
    spec fn vocab(&self) -> Set<Entry>;

    /// The best ranked entries whose word starts with `prefix`, at most `CAP`
    /// of them, highest ranked first.
    fn suggestions(&self, prefix: &str) -> (r: Vec<Rc<Suggestion>>)
        requires
            self.ready(),
        ensures
            entries(r@) == top_matches(self.vocab(), prefix@),
            r@.len() <= CAP,
            descending(entries(r@)),
    ;
}

impl AutoCompletor for trie::Trie {
    open spec fn ready(&self) -> bool {
        self.wf()
    }

    open spec fn vocab(&self) -> Set<Entry> {
        self@
    }

    fn suggestions(&self, prefix: &str) -> (r: Vec<Rc<Suggestion>>) {
        trie::Trie::suggestions(self, prefix)
    }
}

impl AutoCompletor for naive::NaiveAutoComplete {
    open spec fn ready(&self) -> bool {
        self.wf()
    }

    open spec fn vocab(&self) -> Set<Entry> {
        self@
    }

    fn suggestions(&self, prefix: &str) -> (r: Vec<Rc<Suggestion>>) {
        naive::NaiveAutoComplete::suggestions(self, prefix)
    }
}

} // verus!
