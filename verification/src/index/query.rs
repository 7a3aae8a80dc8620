//! Queries over the index: exact, qualified (`package.Name`), fuzzy, smart
//! and prefix completion.

use vstd::prelude::*;
use std::sync::Arc;
use nucleo::pattern::{Atom, AtomKind, CaseMatching, Normalization};
use nucleo::{Config, Matcher, Utf32String};
use crate::index::{list_at, IndexView, InvertedIndex, Symbol};
use crate::index::tables::string_views;
use crate::text::{chars_of, contains, has_char, has_prefix, occurs_in, split, split_on, starts_with, string_of};

verus! {

// ---------------------------------------------------------------------------
// Qualified lookup

/// The symbols of `s` whose package name is `hint` or whose package path
/// contains `hint`, in order.
pub open spec fn hinted(s: Seq<Symbol>, hint: Seq<char>) -> Seq<Symbol>
    decreases s.len(),
{
    if s.len() == 0 {
        s
    } else {
        let rest = hinted(s.drop_last(), hint);
        let t = s.last();
        if t.package_name@ == hint || contains(t.package@, hint) { rest.push(t) } else { rest }
    }
}

/// What a qualified lookup finds: a query without a dot is an exact name; a
/// query `hint.Name` finds the symbols named `Name` whose package matches
/// `hint`; a query with more dots finds nothing.
pub open spec fn qualified_matches(names: Map<Seq<char>, Seq<Symbol>>, query: Seq<char>) -> Seq<Symbol> {
    let parts = split(query, '.');
    if parts.len() == 1 {
        list_at(names, parts[0])
    } else if parts.len() == 2 {
        hinted(list_at(names, parts[1]), parts[0])
    } else {
        Seq::empty()
    }
}

// ---------------------------------------------------------------------------
// Fuzzy search

/// The score that `nucleo` gives `haystack` for the fuzzy pattern `pattern`
/// (smart case, smart normalization), or nothing when it does not match.
pub uninterp spec fn fuzzy_score(pattern: Seq<char>, haystack: Seq<char>) -> Option<u16>;

/// `nucleo::pattern::Atom::score` of a fuzzy atom made from `pattern` with
/// smart case matching and smart normalization, run with a matcher of the
/// default configuration: the score of `haystack`, or nothing when it does
/// not match. The score depends on the pattern and the haystack only.
#[verifier::external_body]
fn nucleo_fuzzy_score(pattern: &str, haystack: &str) -> (score: Option<u16>)
    requires
        haystack@.len() <= u32::MAX,
    ensures
        score == fuzzy_score(pattern@, haystack@),
{
    let atom = Atom::new(pattern, CaseMatching::Smart, Normalization::Smart, AtomKind::Fuzzy, false);
    let mut matcher = Matcher::new(Config::DEFAULT);
    let text = Utf32String::from(haystack);
    atom.score(text.slice(..), &mut matcher)
}

/// The score of `name` against `query` as the search uses it: names too long
/// for the matcher never match.
pub open spec fn name_score(query: Seq<char>, name: Seq<char>) -> Option<u16> {
    if name.len() <= u32::MAX { fuzzy_score(query, name) } else { None }
}

/// The symbols of `name`, each paired with `score`.
pub open spec fn scored(s: Seq<Symbol>, score: u32) -> Seq<(Symbol, u32)> {
    s.map_values(|t: Symbol| (t, score))
}

/// What the walk over `order` collects: for each name that matches, its
/// symbols with the name's score; the walk stops after a name that brings
/// the collection to `3 * limit` entries or more.
pub open spec fn gathered(
    names: Map<Seq<char>, Seq<Symbol>>,
    query: Seq<char>,
    order: Seq<Seq<char>>,
    limit: nat,
) -> Seq<(Symbol, u32)>
    decreases order.len(),
{
    if order.len() == 0 {
        Seq::empty()
    } else {
        let before = gathered(names, query, order.drop_last(), limit);
        if order.len() > 1 && before.len() >= 3 * limit {
            before
        } else {
            match name_score(query, order.last()) {
                Some(score) => before + scored(list_at(names, order.last()), score as u32),
                None => before,
            }
        }
    }
}

/// `sorted`, which is ordered by descending score, with `x` placed after
/// every entry of a score not below its own.
pub open spec fn insert_by_score(sorted: Seq<(Symbol, u32)>, x: (Symbol, u32)) -> Seq<(Symbol, u32)>
    decreases sorted.len(),
{
    if sorted.len() == 0 {
        seq![x]
    } else if sorted.last().1 >= x.1 {
        sorted.push(x)
    } else {
        insert_by_score(sorted.drop_last(), x).push(sorted.last())
    }
}

/// `s` sorted by descending score, entries of equal score keeping their
/// order (a stable sort).
pub open spec fn sort_by_score(s: Seq<(Symbol, u32)>) -> Seq<(Symbol, u32)>
    decreases s.len(),
{
    if s.len() == 0 {
        s
    } else {
        insert_by_score(sort_by_score(s.drop_last()), s.last())
    }
}

/// The best `limit` entries of `s`.
pub open spec fn ranked(s: Seq<(Symbol, u32)>, limit: nat) -> Seq<(Symbol, u32)> {
    let sorted = sort_by_score(s);
    if limit <= sorted.len() { sorted.take(limit as int) } else { sorted }
}

/// `order` lists every name of `names` once.
pub open spec fn is_name_order(names: Map<Seq<char>, Seq<Symbol>>, order: Seq<Seq<char>>) -> bool {
    order.no_duplicates() && order.to_set() == names.dom()
}

/// `result` is what a fuzzy search of `query` may give: the best `limit`
/// entries collected by a walk over the names in some order.
pub open spec fn fuzzy_outcome(v: IndexView, query: Seq<char>, limit: nat, result: Seq<(Symbol, u32)>) -> bool {
    exists|order: Seq<Seq<char>>| is_name_order(v.names, order) && result == ranked(gathered(v.names, query, order, limit), limit)
}

/// `found` is what a smart search of `query` may give: the first `limit`
/// exact matches if there are any; else, for a query with a dot, the first
/// `limit` qualified matches if there are any; else the symbols of a fuzzy
/// search.
pub open spec fn smart_outcome(v: IndexView, query: Seq<char>, limit: nat, found: Seq<Symbol>) -> bool {
    if list_at(v.names, query).len() > 0 {
        found == first_n(list_at(v.names, query), limit)
    } else if query.contains('.') && qualified_matches(v.names, query).len() > 0 {
        found == first_n(qualified_matches(v.names, query), limit)
    } else {
        exists|hits: Seq<(Symbol, u32)>| fuzzy_outcome(v, query, limit, hits) && found == symbols_of(hits)
    }
}

/// Whether a smart search of `query` falls back to fuzzy matching: there is
/// no exact match and no qualified one.
pub open spec fn reaches_fuzzy(v: IndexView, query: Seq<char>) -> bool {
    list_at(v.names, query).len() == 0 && !(query.contains('.') && qualified_matches(v.names, query).len() > 0)
}

/// The symbols of scored entries.
pub open spec fn symbols_of(s: Seq<(Symbol, u32)>) -> Seq<Symbol> {
    s.map_values(|e: (Symbol, u32)| e.0)
}

/// Placing `x` at `at` is placing it by score when every entry from `at` on
/// scores lower and the entry before `at` does not.
proof fn lemma_insert_by_score_at(sorted: Seq<(Symbol, u32)>, x: (Symbol, u32), at: int)
    requires
        0 <= at <= sorted.len(),
        forall|k: int| at <= k < sorted.len() ==> (#[trigger] sorted[k]).1 < x.1,
        at > 0 ==> sorted[at - 1].1 >= x.1,
    ensures
        insert_by_score(sorted, x) == sorted.insert(at, x),
    decreases sorted.len(),
{
    if sorted.len() == 0 {
        assert(sorted.insert(at, x) =~= seq![x]);
    } else if at == sorted.len() {
        assert(sorted.insert(at, x) =~= sorted.push(x));
    } else {
        let rest = sorted.drop_last();
        lemma_insert_by_score_at(rest, x, at);
        assert(rest.insert(at, x).push(sorted.last()) =~= sorted.insert(at, x));
    }
}

/// Sorting keeps the number of entries.
proof fn lemma_sort_len(s: Seq<(Symbol, u32)>)
    ensures
        sort_by_score(s).len() == s.len(),
    decreases s.len(),
{
    if s.len() > 0 {
        lemma_sort_len(s.drop_last());
        lemma_insert_len(sort_by_score(s.drop_last()), s.last());
    }
}

proof fn lemma_insert_len(sorted: Seq<(Symbol, u32)>, x: (Symbol, u32))
    ensures
        insert_by_score(sorted, x).len() == sorted.len() + 1,
    decreases sorted.len(),
{
    if sorted.len() > 0 && sorted.last().1 < x.1 {
        lemma_insert_len(sorted.drop_last(), x);
    }
}

/// Inserting by score keeps a list ordered by descending score.
proof fn lemma_insert_keeps_order(sorted: Seq<(Symbol, u32)>, x: (Symbol, u32))
    requires
        forall|a: int, b: int| 0 <= a < b < sorted.len() ==> (#[trigger] sorted[a]).1 >= (#[trigger] sorted[b]).1,
    ensures
        forall|a: int, b: int| 0 <= a < b < insert_by_score(sorted, x).len()
            ==> (#[trigger] insert_by_score(sorted, x)[a]).1 >= (#[trigger] insert_by_score(sorted, x)[b]).1,
        insert_by_score(sorted, x).len() == sorted.len() + 1,
        forall|a: int| 0 <= a < insert_by_score(sorted, x).len()
            ==> (#[trigger] insert_by_score(sorted, x)[a]).1 == x.1 || sorted.contains(insert_by_score(sorted, x)[a]),
    decreases sorted.len(),
{
    lemma_insert_len(sorted, x);
    if sorted.len() > 0 && sorted.last().1 < x.1 {
        let rest = sorted.drop_last();
        lemma_insert_keeps_order(rest, x);
        let r = insert_by_score(sorted, x);
        let ri = insert_by_score(rest, x);
        assert forall|a: int| 0 <= a < r.len() implies (#[trigger] r[a]).1 == x.1 || sorted.contains(r[a]) by {
            if a < ri.len() {
                assert(r[a] == ri[a]);
                if ri[a].1 != x.1 {
                    let j = choose|j: int| 0 <= j < rest.len() && rest[j] == ri[a];
                    assert(sorted[j] == rest[j]);
                }
            } else {
                assert(r[a] == sorted[sorted.len() - 1]);
            }
        }
        assert forall|a: int, b: int| 0 <= a < b < r.len() implies (#[trigger] r[a]).1 >= (#[trigger] r[b]).1 by {
            if b == r.len() - 1 {
                assert(r[b] == sorted.last());
                assert(r[a] == ri[a]);
                if ri[a].1 != x.1 {
                    let j = choose|j: int| 0 <= j < rest.len() && rest[j] == ri[a];
                    assert(sorted[j] == rest[j]);
                    assert(sorted[j].1 >= sorted[sorted.len() - 1].1);
                }
            } else {
                assert(r[a] == ri[a]);
                assert(r[b] == ri[b]);
            }
        }
    }
}

/// The sorted entries are in descending order of score.
pub proof fn lemma_sort_by_score_ordered(s: Seq<(Symbol, u32)>)
    ensures
        forall|a: int, b: int| 0 <= a < b < sort_by_score(s).len()
            ==> (#[trigger] sort_by_score(s)[a]).1 >= (#[trigger] sort_by_score(s)[b]).1,
    decreases s.len(),
{
    if s.len() > 0 {
        lemma_sort_by_score_ordered(s.drop_last());
        lemma_insert_keeps_order(sort_by_score(s.drop_last()), s.last());
    }
}

/// Sorts entries by descending score, keeping the order of equal scores,
/// and keeps the first `limit`.
pub fn rank_by_score(entries: &Vec<(Symbol, u32)>, limit: usize) -> (best: Vec<(Symbol, u32)>)
    ensures
        best@ == ranked(entries@, limit as nat),
{
    let mut sorted: Vec<(Symbol, u32)> = Vec::new();
    let mut i: usize = 0;
    while i < entries.len()
        invariant
            i <= entries@.len(),
            sorted@ == sort_by_score(entries@.take(i as int)),
        decreases entries.len() - i,
    {
        assert(entries@.take(i + 1).drop_last() =~= entries@.take(i as int));
        let x = (entries[i].0.copy(), entries[i].1);
        assert(x == entries@[i as int]);
        let mut at = sorted.len();
        while at > 0 && sorted[at - 1].1 < x.1
            invariant
                at <= sorted@.len(),
                forall|k: int| at <= k < sorted@.len() ==> (#[trigger] sorted@[k]).1 < x.1,
            decreases at,
        {
            at = at - 1;
        }
        proof { lemma_insert_by_score_at(sorted@, x, at as int); }
        sorted.insert(at, x);
        i = i + 1;
    }
    assert(entries@.take(entries@.len() as int) =~= entries@);
    proof { lemma_sort_len(entries@); }
    sorted.truncate(limit);
    sorted
}


// ---------------------------------------------------------------------------
// Completion

/// The names of `list` that start with `prefix`, in order.
pub open spec fn with_prefix(list: Seq<Seq<char>>, prefix: Seq<char>) -> Seq<Seq<char>>
    decreases list.len(),
{
    if list.len() == 0 {
        list
    } else {
        let rest = with_prefix(list.drop_last(), prefix);
        if starts_with(list.last(), prefix) { rest.push(list.last()) } else { rest }
    }
}

/// The first `limit` entries of `s`.
pub open spec fn first_n<T>(s: Seq<T>, limit: nat) -> Seq<T> {
    if limit <= s.len() { s.take(limit as int) } else { s }
}

/// What completion offers for `prefix`: the first `limit` names listed under
/// its first character that start with it; nothing for an empty prefix.
pub open spec fn completions(prefixes: Map<char, Seq<Seq<char>>>, prefix: Seq<char>, limit: nat) -> Seq<Seq<char>> {
    if prefix.len() == 0 || !prefixes.contains_key(prefix[0]) {
        Seq::empty()
    } else {
        first_n(with_prefix(prefixes[prefix[0]], prefix), limit)
    }
}

/// Filtering a prefix of a list gives a prefix of the filtered list.
proof fn lemma_with_prefix_take(list: Seq<Seq<char>>, prefix: Seq<char>, i: int)
    requires
        0 <= i <= list.len(),
    ensures
        with_prefix(list.take(i), prefix).len() <= with_prefix(list, prefix).len(),
        with_prefix(list, prefix).take(with_prefix(list.take(i), prefix).len() as int)
            == with_prefix(list.take(i), prefix),
    decreases list.len() - i,
{
    if i == list.len() {
        assert(list.take(i) =~= list);
        assert(with_prefix(list, prefix).take(with_prefix(list, prefix).len() as int) =~= with_prefix(list, prefix));
    } else {
        lemma_with_prefix_take(list, prefix, i + 1);
        assert(list.take(i + 1).drop_last() =~= list.take(i));
        let a = with_prefix(list.take(i), prefix);
        let b = with_prefix(list.take(i + 1), prefix);
        let full = with_prefix(list, prefix);
        assert(full.take(a.len() as int) =~= b.take(a.len() as int));
        assert(b.take(a.len() as int) =~= a);
    }
}

/// The names of `list` that start with `prefix`, at most `limit` of them.
fn first_with_prefix(list: &Vec<String>, prefix: &Vec<char>, limit: usize) -> (found: Vec<String>)
    ensures
        string_views(found@) == first_n(with_prefix(string_views(list@), prefix@), limit as nat),
{
    let ghost all = string_views(list@);
    let mut found: Vec<String> = Vec::new();
    let mut i: usize = 0;
    while i < list.len() && found.len() < limit
        invariant
            i <= list@.len(),
            all == string_views(list@),
            found@.len() <= limit,
            string_views(found@) == with_prefix(all.take(i as int), prefix@),
        decreases list.len() - i,
    {
        assert(all.take(i + 1).drop_last() =~= all.take(i as int));
        assert(all.take(i + 1).last() == list@[i as int]@);
        let name = chars_of(list[i].as_str());
        if has_prefix(&name, prefix) {
            found.push(list[i].clone());
            assert(string_views(found@) =~= with_prefix(all.take(i as int), prefix@).push(list@[i as int]@));
        }
        i = i + 1;
    }
    proof {
        lemma_with_prefix_take(all, prefix@, i as int);
        if i == list.len() {
            assert(all.take(i as int) =~= all);
        }
    }
    found
}

// ---------------------------------------------------------------------------
// Engines

/// Fuzzy matching of names with `nucleo`.
pub struct FuzzyMatcher {
    index: Arc<InvertedIndex>,
}

impl View for FuzzyMatcher {
    type V = IndexView;

    closed spec fn view(&self) -> IndexView {
        self.index@
    }
}

/// The symbols of `list` whose package matches `hint`.
fn keep_hinted(list: &Vec<Symbol>, hint: &String) -> (kept: Vec<Symbol>)
    ensures
        kept@ == hinted(list@, hint@),
{
    let hint_chars = chars_of(hint.as_str());
    let mut kept: Vec<Symbol> = Vec::new();
    let mut i: usize = 0;
    while i < list.len()
        invariant
            i <= list@.len(),
            hint_chars@ == hint@,
            kept@ == hinted(list@.take(i as int), hint@),
        decreases list.len() - i,
    {
        assert(list@.take(i + 1).drop_last() =~= list@.take(i as int));
        let package = chars_of(list[i].package.as_str());
        if list[i].package_name == *hint || occurs_in(&package, &hint_chars) {
            kept.push(list[i].copy());
        }
        i = i + 1;
    }
    assert(list@.take(list@.len() as int) =~= list@);
    kept
}

impl FuzzyMatcher {
    /// A matcher over `index`.
    pub fn new(index: Arc<InvertedIndex>) -> (matcher: FuzzyMatcher)
        ensures
            matcher@ == index@,
    {
        FuzzyMatcher { index }
    }

    /// Walks `names` in order and collects, for each name that matches
    /// `query`, its symbols with the name's score, stopping after a name
    /// that brings the collection to `3 * limit` entries or more.
    pub fn gather(&self, names: &Vec<String>, query: &str, limit: usize) -> (hits: Vec<(Symbol, u32)>)
        requires
            limit <= usize::MAX / 3,
        ensures
            hits@ == gathered(self@.names, query@, string_views(names@), limit as nat),
    {
        let ghost order = string_views(names@);
        let ghost table = self@.names;
        let cap = limit * 3;
        let mut hits: Vec<(Symbol, u32)> = Vec::new();
        let mut stopped = false;
        let mut k: usize = 0;
        while k < names.len() && !stopped
            invariant
                k <= names@.len(),
                order == string_views(names@),
                table == self@.names,
                cap == 3 * limit,
                hits@ == gathered(table, query@, order.take(k as int), limit as nat),
                stopped ==> k > 0 && hits@.len() >= cap,
                !stopped ==> k == 0 || hits@.len() < cap,
            decreases names.len() - k,
        {
            assert(order.take(k + 1).drop_last() =~= order.take(k as int));
            assert(order.take(k + 1).last() == names@[k as int]@);
            let ghost before = hits@;
            let name = names[k].as_str();
            let score = if name.unicode_len() <= 4294967295usize {
                nucleo_fuzzy_score(query, name)
            } else {
                None
            };
            match score {
                Some(s) => {
                    match self.index.get_by_name(name) {
                        Some(symbols) => {
                            let mut j: usize = 0;
                            while j < symbols.len()
                                invariant
                                    j <= symbols@.len(),
                                    hits@ == before + scored(symbols@.take(j as int), s as u32),
                                decreases symbols.len() - j,
                            {
                                hits.push((symbols[j].copy(), s as u32));
                                j = j + 1;
                                assert(hits@ =~= before + scored(symbols@.take(j as int), s as u32));
                            }
                            assert(symbols@.take(symbols@.len() as int) =~= symbols@);
                        }
                        None => {
                            assert(scored(list_at(table, name@), s as u32) =~= Seq::empty());
                            assert(hits@ =~= before + scored(list_at(table, name@), s as u32));
                        }
                    }
                }
                None => {}
            }
            k = k + 1;
            if hits.len() >= cap {
                stopped = true;
            }
        }
        proof {
            if stopped {
                lemma_gathered_stops(table, query@, order, limit as nat, k as int);
            } else {
                assert(order.take(k as int) =~= order);
            }
        }
        hits
    }

    /// Fuzzy search: the names of the index, in the order the index lists
    /// them, are matched against `query`, and the best `limit` hits are
    /// returned, best first.
    pub fn search(&self, query: &str, limit: usize) -> (hits: Vec<(Symbol, u32)>)
        requires
            limit <= usize::MAX / 3,
        ensures
            fuzzy_outcome(self@, query@, limit as nat, hits@),
    {
        let names = self.index.all_symbol_names();
        let collected = self.gather(&names, query, limit);
        let best = rank_by_score(&collected, limit);
        assert(is_name_order(self@.names, string_views(names@)));
        best
    }
}

/// Once the walk has stopped, later names add nothing.
proof fn lemma_gathered_stops(
    names: Map<Seq<char>, Seq<Symbol>>,
    query: Seq<char>,
    order: Seq<Seq<char>>,
    limit: nat,
    k: int,
)
    requires
        0 < k <= order.len(),
        gathered(names, query, order.take(k), limit).len() >= 3 * limit,
    ensures
        gathered(names, query, order, limit) == gathered(names, query, order.take(k), limit),
    decreases order.len() - k,
{
    if k == order.len() {
        assert(order.take(k) =~= order);
    } else {
        assert(order.take(k + 1).drop_last() =~= order.take(k));
        lemma_gathered_stops(names, query, order, limit, k + 1);
    }
}

/// Queries over an index.
pub struct QueryEngine {
    index: Arc<InvertedIndex>,
    fuzzy_matcher: FuzzyMatcher,
}

impl View for QueryEngine {
    type V = IndexView;

    closed spec fn view(&self) -> IndexView {
        self.index@
    }
}

impl QueryEngine {
    #[verifier::type_invariant]
    spec fn same_index(&self) -> bool {
        self.fuzzy_matcher@ == self.index@
    }

    /// An engine over `index`.
    pub fn new(index: Arc<InvertedIndex>) -> (engine: QueryEngine)
        ensures
            engine@ == index@,
    {
        QueryEngine { index: Arc::clone(&index), fuzzy_matcher: FuzzyMatcher::new(index) }
    }

    /// The symbols named exactly `name`.
    pub fn exact_lookup(&self, name: &str) -> (found: Vec<Symbol>)
        ensures
            found@ == list_at(self@.names, name@),
    {
        match self.index.get_by_name(name) {
            Some(list) => list,
            None => Vec::new(),
        }
    }

    /// Lookup with a package hint, such as `redis.NewClient`.
    pub fn qualified_lookup(&self, qualified_name: &str) -> (found: Vec<Symbol>)
        ensures
            found@ == qualified_matches(self@.names, qualified_name@),
    {
        let query = chars_of(qualified_name);
        let parts = split_on(&query, '.');
        let ghost views = parts@.map_values(|p: Vec<char>| p@);
        assert(views.len() == parts@.len());
        if parts.len() == 1 {
            assert(views[0] == parts@[0]@);
            let name = string_of(parts[0].as_slice());
            self.exact_lookup(name.as_str())
        } else if parts.len() == 2 {
            assert(views[0] == parts@[0]@);
            assert(views[1] == parts@[1]@);
            let hint = string_of(parts[0].as_slice());
            let name = string_of(parts[1].as_slice());
            match self.index.get_by_name(name.as_str()) {
                Some(list) => keep_hinted(&list, &hint),
                None => Vec::new(),
            }
        } else {
            Vec::new()
        }
    }

    /// Fuzzy search, best first.
    pub fn fuzzy_search(&self, query: &str, limit: usize) -> (hits: Vec<(Symbol, u32)>)
        requires
            limit <= usize::MAX / 3,
        ensures
            fuzzy_outcome(self@, query@, limit as nat, hits@),
    {
        proof { use_type_invariant(self); }
        self.fuzzy_matcher.search(query, limit)
    }

    /// Smart search, at most `limit` symbols: the exact matches if there are
    /// any; else, for a query with a dot, the qualified matches if there are
    /// any; else the symbols of a fuzzy search.
    pub fn smart_search(&self, query: &str, limit: usize) -> (found: Vec<Symbol>)
        requires
            reaches_fuzzy(self@, query@) ==> limit <= usize::MAX / 3,
        ensures
            smart_outcome(self@, query@, limit as nat, found@),
    {
        let mut exact = self.exact_lookup(query);
        if exact.len() > 0 {
            exact.truncate(limit);
            return exact;
        }
        let chars = chars_of(query);
        if has_char(&chars, '.') {
            let mut qualified = self.qualified_lookup(query);
            if qualified.len() > 0 {
                qualified.truncate(limit);
                return qualified;
            }
        }
        let hits = self.fuzzy_search(query, limit);
        let found = symbols_only(&hits);
        assert(fuzzy_outcome(self@, query@, limit as nat, hits@));
        found
    }

    /// Whether a smart search of `query` falls back to fuzzy matching.
    pub fn falls_back_to_fuzzy(&self, query: &str) -> (fuzzy: bool)
        ensures
            fuzzy == reaches_fuzzy(self@, query@),
    {
        if self.exact_lookup(query).len() > 0 {
            return false;
        }
        let chars = chars_of(query);
        !(has_char(&chars, '.') && self.qualified_lookup(query).len() > 0)
    }

    /// Completion: names starting with `prefix`, at most `limit` of them.
    pub fn autocomplete(&self, prefix: &str, limit: usize) -> (names: Vec<String>)
        ensures
            string_views(names@) == completions(self@.prefixes, prefix@, limit as nat),
    {
        if prefix.is_empty() {
            return Vec::new();
        }
        let first = prefix.get_char(0);
        let prefix_chars = chars_of(prefix);
        match self.index.names_under(first) {
            Some(list) => first_with_prefix(&list, &prefix_chars, limit),
            None => Vec::new(),
        }
    }
}

/// The symbols of scored entries.
pub fn symbols_only(hits: &Vec<(Symbol, u32)>) -> (symbols: Vec<Symbol>)
    ensures
        symbols@ == symbols_of(hits@),
{
    let mut symbols: Vec<Symbol> = Vec::new();
    let mut i: usize = 0;
    while i < hits.len()
        invariant
            i <= hits@.len(),
            symbols@ == symbols_of(hits@.take(i as int)),
        decreases hits.len() - i,
    {
        symbols.push(hits[i].0.copy());
        i = i + 1;
        assert(symbols@ =~= symbols_of(hits@.take(i as int)));
    }
    assert(hits@.take(hits@.len() as int) =~= hits@);
    symbols
}

} // verus!
