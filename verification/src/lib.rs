//! Symbol search over Go modules: an inverted index from symbol names to
//! the packages that declare them, with exact, qualified, fuzzy and prefix
//! queries.

pub mod api;
pub mod cache;
pub mod index;
pub mod parser;
pub mod paths;
pub mod table;
pub mod text;

use vstd::prelude::*;
use std::sync::Arc;
use crate::index::{capped, list_at, symbol_count, IndexStats, IndexView, InvertedIndex, Symbol};
use crate::index::query::{completions, fuzzy_outcome, reaches_fuzzy, smart_outcome, symbols_of, symbols_only, QueryEngine};
use crate::index::tables::string_views;

verus! {

/// The version of this library.
pub const VERSION: &'static str = "0.1.0";

/// A client that owns an index and answers queries on it.
pub struct Woofind {
    index: Arc<InvertedIndex>,
    engine: QueryEngine,
}

impl View for Woofind {
    type V = IndexView;

    closed spec fn view(&self) -> IndexView {
        self.index@
    }
}

impl Woofind {
    #[verifier::type_invariant]
    spec fn consistent(&self) -> bool {
        &&& self.engine@ == self.index@
        &&& self.index.wf()
    }

    /// A client with an empty index.
    pub fn new() -> (client: Woofind)
        ensures
            client@ == IndexView::empty(),
    {
        Woofind::from_index(InvertedIndex::new())
    }

    /// A client over `index`.
    pub fn from_index(index: InvertedIndex) -> (client: Woofind)
        requires
            index.wf(),
        ensures
            client@ == index@,
    {
        let index = Arc::new(index);
        let engine = QueryEngine::new(Arc::clone(&index));
        Woofind { index, engine }
    }

    /// The symbols named exactly `name`.
    pub fn lookup(&self, name: &str) -> (found: Vec<Symbol>)
        ensures
            found@ == list_at(self@.names, name@),
    {
        proof { use_type_invariant(self); }
        self.engine.exact_lookup(name)
    }

    /// Fuzzy search: at most `limit` symbols, best first.
    pub fn fuzzy_search(&self, query: &str, limit: usize) -> (found: Vec<Symbol>)
        requires
            limit <= usize::MAX / 3,
        ensures
            exists|hits: Seq<(Symbol, u32)>| fuzzy_outcome(self@, query@, limit as nat, hits) && found@ == symbols_of(hits),
    {
        proof { use_type_invariant(self); }
        let hits = self.engine.fuzzy_search(query, limit);
        let found = symbols_only(&hits);
        assert(fuzzy_outcome(self@, query@, limit as nat, hits@));
        found
    }

    /// Smart search, at most `limit` symbols: exact, then qualified, then
    /// fuzzy.
    pub fn search(&self, query: &str, limit: usize) -> (found: Vec<Symbol>)
        requires
            reaches_fuzzy(self@, query@) ==> limit <= usize::MAX / 3,
        ensures
            smart_outcome(self@, query@, limit as nat, found@),
    {
        proof { use_type_invariant(self); }
        self.engine.smart_search(query, limit)
    }

    /// Completion: names starting with `prefix`, at most `limit` of them.
    pub fn autocomplete(&self, prefix: &str, limit: usize) -> (names: Vec<String>)
        ensures
            string_views(names@) == completions(self@.prefixes, prefix@, limit as nat),
    {
        proof { use_type_invariant(self); }
        self.engine.autocomplete(prefix, limit)
    }

    /// Counts of symbols, packages and modules.
    pub fn stats(&self) -> (stats: IndexStats)
        ensures
            stats.total_symbols == capped(symbol_count(self@.names)),
            stats.total_packages == self@.packages.dom().len(),
            stats.total_modules == self@.modules.dom().len(),
    {
        self.index.stats()
    }

    /// Whether no name is indexed.
    pub fn is_empty(&self) -> (empty: bool)
        ensures
            empty == (self@.names.dom().len() == 0),
    {
        self.index.is_empty()
    }
}

impl Default for Woofind {
    fn default() -> (client: Woofind)
        ensures
            client@ == IndexView::empty(),
    {
        Woofind::new()
    }
}

} // verus!
