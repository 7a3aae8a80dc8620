//! What holds of the index across its operations.

use vstd::prelude::*;
use crate::index::{lemma_keeps_others, lemma_without_package_idempotent, lemma_without_package_members, list_at, without_package, purged, IndexView, Symbol};
use crate::index::query::{
    completions, first_n, fuzzy_outcome, gathered, hinted, insert_by_score, is_name_order, lemma_sort_by_score_ordered,
    name_score, qualified_matches, ranked, scored, smart_outcome, sort_by_score, with_prefix,
};
use crate::parser::{lemma_module_symbols_in_module, module_symbols, ParsedModule};
use crate::index::symbol_views;
use crate::text::{contains, split, starts_with};

verus! {

/// A lookup right after inserting a symbol finds that symbol last among the
/// symbols of its name, and finds what it found before for every other name.
pub proof fn law_lookup_after_insert(v: IndexView, s: Symbol, other: Seq<char>)
    ensures
        list_at(v.inserted(s).names, s.name@) == list_at(v.names, s.name@).push(s),
        other != s.name@ ==> list_at(v.inserted(s).names, other) == list_at(v.names, other),
        list_at(v.inserted(s).packages, s.package@) == list_at(v.packages, s.package@).push(s),
{
}

/// Every symbol a lookup by name finds carries that name.
pub proof fn law_lookup_finds_that_name(v: IndexView, name: Seq<char>)
    requires
        v.valid(),
    ensures
        forall|i: int| 0 <= i < list_at(v.names, name).len() ==> (#[trigger] list_at(v.names, name)[i]).name@ == name,
{
}

/// After a package is removed, no lookup by name finds a symbol of it, a
/// lookup by name finds every symbol of another package it found before, and
/// a lookup by package finds nothing for it.
pub proof fn law_removed_package_is_gone(v: IndexView, package: Seq<char>, name: Seq<char>, s: Symbol)
    requires
        v.valid(),
    ensures
        forall|i: int| 0 <= i < list_at(v.package_removed(package).names, name).len()
            ==> (#[trigger] list_at(v.package_removed(package).names, name)[i]).package@ != package,
        s.package@ != package ==> (list_at(v.package_removed(package).names, name).contains(s)
            <==> list_at(v.names, name).contains(s)),
        !v.package_removed(package).packages.contains_key(package),
        !v.package_removed(package).modules.contains_key(package),
{
    let w = v.package_removed(package);
    lemma_without_package_members(list_at(v.names, name), package);
    if v.names.contains_key(name) {
        lemma_keeps_others(v.names[name], package, s);
        if without_package(v.names[name], package).len() == 0 && s.package@ != package && v.names[name].contains(s) {
            assert(without_package(v.names[name], package).contains(s));
        }
    }
}

/// What a qualified lookup `hint.Name` finds carries the name `Name` and
/// comes from a package named `hint` or whose path contains `hint`.
pub proof fn law_qualified_lookup_matches_hint(v: IndexView, query: Seq<char>)
    requires
        v.valid(),
        split(query, '.').len() == 2,
    ensures
        forall|i: int| 0 <= i < qualified_matches(v.names, query).len() ==> {
            let t = #[trigger] qualified_matches(v.names, query)[i];
            &&& t.name@ == split(query, '.')[1]
            &&& (t.package_name@ == split(query, '.')[0] || contains(t.package@, split(query, '.')[0]))
        },
{
    let parts = split(query, '.');
    let found = list_at(v.names, parts[1]);
    lemma_hinted_members(found, parts[0]);
    assert forall|i: int| 0 <= i < qualified_matches(v.names, query).len() implies {
        let t = #[trigger] qualified_matches(v.names, query)[i];
        &&& t.name@ == parts[1]
        &&& (t.package_name@ == parts[0] || contains(t.package@, parts[0]))
    } by {
        let t = qualified_matches(v.names, query)[i];
        let j = choose|j: int| 0 <= j < found.len() && found[j] == t;
        assert(found[j].name@ == parts[1]);
    }
}

/// What `hinted` keeps: symbols of the list whose package matches the hint.
proof fn lemma_hinted_members(s: Seq<Symbol>, hint: Seq<char>)
    ensures
        forall|k: int| 0 <= k < hinted(s, hint).len() ==> {
            &&& s.contains(#[trigger] hinted(s, hint)[k])
            &&& (hinted(s, hint)[k].package_name@ == hint || contains(hinted(s, hint)[k].package@, hint))
        },
    decreases s.len(),
{
    if s.len() > 0 {
        let rest = s.drop_last();
        lemma_hinted_members(rest, hint);
        assert forall|k: int| 0 <= k < hinted(s, hint).len() implies {
            &&& s.contains(#[trigger] hinted(s, hint)[k])
            &&& (hinted(s, hint)[k].package_name@ == hint || contains(hinted(s, hint)[k].package@, hint))
        } by {
            let h = hinted(rest, hint);
            if k < h.len() {
                assert(hinted(s, hint)[k] == h[k]);
                let j = choose|j: int| 0 <= j < rest.len() && rest[j] == h[k];
                assert(s[j] == rest[j]);
            } else {
                assert(hinted(s, hint)[k] == s[s.len() - 1]);
            }
        }
    }
}

/// A fuzzy search returns at most `limit` entries, in descending order of
/// score.
pub proof fn law_fuzzy_results_ranked(v: IndexView, query: Seq<char>, limit: nat, hits: Seq<(Symbol, u32)>)
    requires
        fuzzy_outcome(v, query, limit, hits),
    ensures
        hits.len() <= limit,
        forall|a: int, b: int| 0 <= a < b < hits.len() ==> (#[trigger] hits[a]).1 >= (#[trigger] hits[b]).1,
{
    let order = choose|order: Seq<Seq<char>>| crate::index::query::is_name_order(v.names, order)
        && hits == ranked(gathered(v.names, query, order, limit), limit);
    let all = gathered(v.names, query, order, limit);
    lemma_sort_by_score_ordered(all);
    let sorted = sort_by_score(all);
    assert forall|a: int, b: int| 0 <= a < b < hits.len() implies (#[trigger] hits[a]).1 >= (#[trigger] hits[b]).1 by {
        assert(hits[a] == sorted[a]);
        assert(hits[b] == sorted[b]);
    }
}

/// What `with_prefix` keeps: names of the list that start with the prefix,
/// and every such name.
proof fn lemma_with_prefix_members(list: Seq<Seq<char>>, prefix: Seq<char>)
    ensures
        forall|k: int| 0 <= k < with_prefix(list, prefix).len() ==> {
            &&& starts_with(#[trigger] with_prefix(list, prefix)[k], prefix)
            &&& list.contains(with_prefix(list, prefix)[k])
        },
        forall|n: Seq<char>| list.contains(n) && starts_with(n, prefix) ==> #[trigger] with_prefix(list, prefix).contains(n),
        list.no_duplicates() ==> with_prefix(list, prefix).no_duplicates(),
    decreases list.len(),
{
    if list.len() > 0 {
        let rest = list.drop_last();
        lemma_with_prefix_members(rest, prefix);
        let w = with_prefix(list, prefix);
        let wr = with_prefix(rest, prefix);
        assert forall|k: int| 0 <= k < w.len() implies {
            &&& starts_with(#[trigger] w[k], prefix)
            &&& list.contains(w[k])
        } by {
            if k < wr.len() {
                assert(w[k] == wr[k]);
                let j = choose|j: int| 0 <= j < rest.len() && rest[j] == wr[k];
                assert(list[j] == rest[j]);
            } else {
                assert(w[k] == list[list.len() - 1]);
            }
        }
        assert forall|n: Seq<char>| list.contains(n) && starts_with(n, prefix) implies #[trigger] w.contains(n) by {
            let j = choose|j: int| 0 <= j < list.len() && list[j] == n;
            if j < list.len() - 1 {
                assert(rest[j] == n);
                assert(rest.contains(n));
                assert(wr.contains(n));
                let k = choose|k: int| 0 <= k < wr.len() && wr[k] == n;
                assert(w[k] == n);
            } else {
                assert(w[w.len() - 1] == n);
            }
        }
        if list.no_duplicates() {
            assert(rest.no_duplicates()) by {
                assert forall|a: int, b: int| 0 <= a < rest.len() && 0 <= b < rest.len() && a != b implies rest[a] != rest[b] by {
                    assert(rest[a] == list[a] && rest[b] == list[b]);
                }
            }
            if starts_with(list.last(), prefix) {
                assert(!wr.contains(list.last())) by {
                    if wr.contains(list.last()) {
                        let k = choose|k: int| 0 <= k < wr.len() && wr[k] == list.last();
                        let j = choose|j: int| 0 <= j < rest.len() && rest[j] == wr[k];
                        assert(list[j] == list[list.len() - 1]);
                    }
                }
                assert forall|a: int, b: int| 0 <= a < w.len() && 0 <= b < w.len() && a != b implies w[a] != w[b] by {
                    if a == w.len() - 1 {
                        assert(w[b] == wr[b]);
                    } else if b == w.len() - 1 {
                        assert(w[a] == wr[a]);
                    } else {
                        assert(w[a] == wr[a] && w[b] == wr[b]);
                    }
                }
            }
        }
    }
}

/// Completion offers at most `limit` names, each once, each starting with
/// the prefix; and when fewer than `limit` listed names start with the
/// prefix, it offers every indexed name that does.
pub proof fn law_completions(v: IndexView, prefix: Seq<char>, limit: nat)
    requires
        v.valid(),
    ensures
        completions(v.prefixes, prefix, limit).len() <= limit,
        completions(v.prefixes, prefix, limit).no_duplicates(),
        forall|k: int| 0 <= k < completions(v.prefixes, prefix, limit).len()
            ==> starts_with(#[trigger] completions(v.prefixes, prefix, limit)[k], prefix),
        prefix.len() > 0 && v.prefixes.contains_key(prefix[0]) && with_prefix(v.prefixes[prefix[0]], prefix).len() <= limit
            ==> forall|n: Seq<char>| #[trigger] v.names.contains_key(n) && starts_with(n, prefix)
                ==> completions(v.prefixes, prefix, limit).contains(n),
{
    if prefix.len() > 0 && v.prefixes.contains_key(prefix[0]) {
        let list = v.prefixes[prefix[0]];
        lemma_with_prefix_members(list, prefix);
        let w = with_prefix(list, prefix);
        let c = completions(v.prefixes, prefix, limit);
        assert forall|k: int| 0 <= k < c.len() implies starts_with(#[trigger] c[k], prefix) by {
            assert(c[k] == w[k]);
        }
        assert(c.no_duplicates()) by {
            assert forall|a: int, b: int| 0 <= a < c.len() && 0 <= b < c.len() && a != b implies c[a] != c[b] by {
                assert(c[a] == w[a] && c[b] == w[b]);
            }
        }
        if w.len() <= limit {
            assert forall|n: Seq<char>| #[trigger] v.names.contains_key(n) && starts_with(n, prefix)
                implies c.contains(n) by {
                assert(n.subrange(0, prefix.len() as int)[0] == n[0]);
                assert(n[0] == prefix[0]);
                assert(list.contains(n));
                assert(w.contains(n));
                assert(c == w);
            }
        }
    } else {
        assert(completions(v.prefixes, prefix, limit) =~= Seq::<Seq<char>>::empty());
    }
}

/// `e` is an indexed symbol whose name matches `query`, paired with the
/// score of that name.
pub open spec fn is_match(names: Map<Seq<char>, Seq<Symbol>>, query: Seq<char>, e: (Symbol, u32)) -> bool {
    &&& list_at(names, e.0.name@).contains(e.0)
    &&& name_score(query, e.0.name@).is_some()
    &&& name_score(query, e.0.name@).unwrap() as u32 == e.1
}

/// Every entry the walk collects is a match.
proof fn lemma_gathered_matches(
    names: Map<Seq<char>, Seq<Symbol>>,
    query: Seq<char>,
    order: Seq<Seq<char>>,
    limit: nat,
)
    requires
        forall|n: Seq<char>, i: int| names.contains_key(n) && 0 <= i < names[n].len()
            ==> (#[trigger] names[n][i]).name@ == n,
    ensures
        forall|k: int| 0 <= k < gathered(names, query, order, limit).len()
            ==> is_match(names, query, #[trigger] gathered(names, query, order, limit)[k]),
    decreases order.len(),
{
    if order.len() > 0 {
        let before = gathered(names, query, order.drop_last(), limit);
        lemma_gathered_matches(names, query, order.drop_last(), limit);
        let g = gathered(names, query, order, limit);
        let n = order.last();
        if !(order.len() > 1 && before.len() >= 3 * limit) {
            match name_score(query, n) {
                Some(sc) => {
                    let list = list_at(names, n);
                    assert forall|k: int| 0 <= k < g.len() implies is_match(names, query, #[trigger] g[k]) by {
                        if k < before.len() {
                            assert(g[k] == before[k]);
                        } else {
                            let j = k - before.len();
                            assert(g[k] == scored(list, sc as u32)[j]);
                            assert(g[k] == (list[j], sc as u32));
                            assert(list[j].name@ == n);
                            assert(list_at(names, list[j].name@).contains(list[j])) by {
                                assert(list_at(names, n)[j] == list[j]);
                            }
                        }
                    }
                },
                None => {},
            }
        }
    }
}

/// Every entry of an insertion by score is the inserted entry or one of the
/// list.
proof fn lemma_insert_members(sorted: Seq<(Symbol, u32)>, x: (Symbol, u32))
    ensures
        forall|a: int| 0 <= a < insert_by_score(sorted, x).len()
            ==> #[trigger] insert_by_score(sorted, x)[a] == x || sorted.contains(insert_by_score(sorted, x)[a]),
    decreases sorted.len(),
{
    if sorted.len() > 0 {
        let r = insert_by_score(sorted, x);
        if sorted.last().1 >= x.1 {
            assert forall|a: int| 0 <= a < r.len() implies #[trigger] r[a] == x || sorted.contains(r[a]) by {
                if a < sorted.len() {
                    assert(r[a] == sorted[a]);
                }
            }
        } else {
            let rest = sorted.drop_last();
            lemma_insert_members(rest, x);
            let ri = insert_by_score(rest, x);
            assert forall|a: int| 0 <= a < r.len() implies #[trigger] r[a] == x || sorted.contains(r[a]) by {
                if a < ri.len() {
                    assert(r[a] == ri[a]);
                    if ri[a] != x {
                        let j = choose|j: int| 0 <= j < rest.len() && rest[j] == ri[a];
                        assert(sorted[j] == rest[j]);
                    }
                } else {
                    assert(r[a] == sorted[sorted.len() - 1]);
                }
            }
        }
    }
}

/// Every entry of the sorted list is an entry of the list.
proof fn lemma_sort_members(s: Seq<(Symbol, u32)>)
    ensures
        forall|a: int| 0 <= a < sort_by_score(s).len() ==> s.contains(#[trigger] sort_by_score(s)[a]),
    decreases s.len(),
{
    if s.len() > 0 {
        let rest = s.drop_last();
        lemma_sort_members(rest);
        lemma_insert_members(sort_by_score(rest), s.last());
        let r = sort_by_score(s);
        assert forall|a: int| 0 <= a < r.len() implies s.contains(#[trigger] r[a]) by {
            if r[a] == s.last() {
                assert(s[s.len() - 1] == r[a]);
            } else {
                let b = choose|b: int| 0 <= b < sort_by_score(rest).len() && sort_by_score(rest)[b] == r[a];
                let j = choose|j: int| 0 <= j < rest.len() && rest[j] == sort_by_score(rest)[b];
                assert(s[j] == rest[j]);
            }
        }
    }
}

/// Every entry a fuzzy search returns is an indexed symbol whose name
/// matches the query, paired with the score of that name.
pub proof fn law_fuzzy_hits_match(v: IndexView, query: Seq<char>, limit: nat, hits: Seq<(Symbol, u32)>)
    requires
        v.valid(),
        fuzzy_outcome(v, query, limit, hits),
    ensures
        forall|i: int| 0 <= i < hits.len() ==> is_match(v.names, query, #[trigger] hits[i]),
{
    let order = choose|order: Seq<Seq<char>>| is_name_order(v.names, order)
        && hits == ranked(gathered(v.names, query, order, limit), limit);
    let all = gathered(v.names, query, order, limit);
    lemma_gathered_matches(v.names, query, order, limit);
    lemma_sort_members(all);
    let sorted = sort_by_score(all);
    assert forall|i: int| 0 <= i < hits.len() implies is_match(v.names, query, #[trigger] hits[i]) by {
        assert(hits[i] == sorted[i]);
        let j = choose|j: int| 0 <= j < all.len() && all[j] == sorted[i];
    }
}

/// Inserting symbols of the package `p` appends them to that package and
/// leaves every other package alone.
proof fn lemma_inserted_all_package_lists(w: IndexView, s: Seq<Symbol>, p: Seq<char>, q: Seq<char>)
    requires
        forall|k: int| 0 <= k < s.len() ==> (#[trigger] s[k]).package@ == p,
    ensures
        list_at(w.inserted_all(s).packages, p) == list_at(w.packages, p) + s,
        q != p ==> list_at(w.inserted_all(s).packages, q) == list_at(w.packages, q),
    decreases s.len(),
{
    if s.len() == 0 {
        assert(list_at(w.packages, p) + s =~= list_at(w.packages, p));
    } else {
        let rest = s.drop_last();
        assert forall|k: int| 0 <= k < rest.len() implies (#[trigger] rest[k]).package@ == p by {
            assert(rest[k] == s[k]);
        }
        lemma_inserted_all_package_lists(w, rest, p, q);
        assert(s.last() == s[s.len() - 1]);
        assert(list_at(w.packages, p) + rest.push(s.last()) =~= (list_at(w.packages, p) + rest).push(s.last()));
        assert(rest.push(s.last()) =~= s);
    }
}

/// Re-indexing a package replaces it: once the package is removed and the
/// new symbols of that package are inserted, the package holds exactly the
/// new symbols, in order, and every other package is as it was.
pub proof fn law_update_replaces_package(v: IndexView, p: Seq<char>, s: Seq<Symbol>, q: Seq<char>)
    requires
        forall|k: int| 0 <= k < s.len() ==> (#[trigger] s[k]).package@ == p,
    ensures
        list_at(v.package_removed(p).inserted_all(s).packages, p) == s,
        q != p ==> list_at(v.package_removed(p).inserted_all(s).packages, q) == list_at(v.packages, q),
{
    let w = v.package_removed(p);
    lemma_inserted_all_package_lists(w, s, p, q);
    assert(list_at(w.packages, p) + s =~= s);
}

/// When a module parsed from its files replaces its package (as a module
/// update does), the package holds exactly the module's symbols, in order,
/// and every other package is as it was.
pub proof fn law_module_update_replaces_package(
    v: IndexView,
    module: ParsedModule,
    files: Seq<(String, Option<String>)>,
    q: Seq<char>,
)
    requires
        symbol_views(module.symbols@) == module_symbols(files, module.path@),
    ensures
        list_at(v.package_removed(module.path@).inserted_all(module.symbols@).packages, module.path@) == module.symbols@,
        q != module.path@ ==> list_at(v.package_removed(module.path@).inserted_all(module.symbols@).packages, q)
            == list_at(v.packages, q),
{
    lemma_module_symbols_in_module(files, module.path@);
    assert forall|k: int| 0 <= k < module.symbols@.len() implies (#[trigger] module.symbols@[k]).package@ == module.path@ by {
        assert(symbol_views(module.symbols@)[k] == module.symbols@[k]@);
    }
    law_update_replaces_package(v, module.path@, module.symbols@, q);
}

/// A smart search returns at most `limit` symbols.
pub proof fn law_smart_results_bounded(v: IndexView, query: Seq<char>, limit: nat, found: Seq<Symbol>)
    requires
        smart_outcome(v, query, limit, found),
    ensures
        found.len() <= limit,
{
    if !(list_at(v.names, query).len() > 0) && !(query.contains('.') && qualified_matches(v.names, query).len() > 0) {
        let hits = choose|hits: Seq<(Symbol, u32)>| fuzzy_outcome(v, query, limit, hits) && found == crate::index::query::symbols_of(hits);
        law_fuzzy_results_ranked(v, query, limit, hits);
    }
}

/// Inserting the same symbols into views with the same name lists gives the
/// same name lists, and likewise for package lists and first-character lists.
proof fn lemma_inserted_all_componentwise(a: IndexView, b: IndexView, s: Seq<Symbol>)
    ensures
        a.names == b.names ==> a.inserted_all(s).names == b.inserted_all(s).names,
        a.packages == b.packages ==> a.inserted_all(s).packages == b.inserted_all(s).packages,
        a.prefixes == b.prefixes ==> a.inserted_all(s).prefixes == b.inserted_all(s).prefixes,
    decreases s.len(),
{
    if s.len() > 0 {
        lemma_inserted_all_componentwise(a, b, s.drop_last());
    }
}

/// Inserting symbols of `p` and then dropping `p` from the name lists drops
/// what was inserted.
proof fn lemma_purged_inserted(w: IndexView, s: Seq<Symbol>, p: Seq<char>)
    requires
        forall|k: int| 0 <= k < s.len() ==> (#[trigger] s[k]).package@ == p,
    ensures
        purged(w.inserted_all(s).names, p) == purged(w.names, p),
        w.inserted_all(s).packages.remove(p) == w.packages.remove(p),
    decreases s.len(),
{
    if s.len() > 0 {
        let rest = s.drop_last();
        assert forall|k: int| 0 <= k < rest.len() implies (#[trigger] rest[k]).package@ == p by {
            assert(rest[k] == s[k]);
        }
        lemma_purged_inserted(w, rest, p);
        let x = s.last();
        assert(x == s[s.len() - 1]);
        let before = w.inserted_all(rest);
        let after = w.inserted_all(s);
        assert forall|n: Seq<char>| #[trigger] after.names.contains_key(n)
            implies without_package(after.names[n], p) == without_package(list_at(before.names, n), p) by {
            if n == x.name@ {
                assert(after.names[n] == list_at(before.names, n).push(x));
                assert(list_at(before.names, n).push(x).drop_last() =~= list_at(before.names, n));
            }
        }
        assert forall|n: Seq<char>| !before.names.contains_key(n) implies without_package(list_at(before.names, n), p).len() == 0 by {
            assert(list_at(before.names, n) =~= Seq::<Symbol>::empty());
        }
        assert forall|n: Seq<char>| #[trigger] purged(after.names, p).contains_key(n)
            == purged(before.names, p).contains_key(n) by {
            if before.names.contains_key(n) {
                assert(after.names.contains_key(n));
                assert(list_at(before.names, n) == before.names[n]);
            }
        }
        assert forall|n: Seq<char>| #[trigger] purged(after.names, p).contains_key(n)
            implies purged(after.names, p)[n] == purged(before.names, p)[n] by {
            assert(list_at(before.names, n) == before.names[n]);
        }
        assert(purged(after.names, p) =~= purged(before.names, p));
        assert(after.packages.remove(p) =~= before.packages.remove(p));
    }
}

/// Inserting symbols whose names are all listed under their first
/// character leaves the first-character lists as they are.
proof fn lemma_prefixes_listed(w: IndexView, s: Seq<Symbol>)
    requires
        forall|k: int| 0 <= k < s.len() && (#[trigger] s[k]).name@.len() > 0 ==> w.prefixes.contains_key(s[k].name@[0])
            && w.prefixes[s[k].name@[0]].contains(s[k].name@),
    ensures
        w.inserted_all(s).prefixes == w.prefixes,
    decreases s.len(),
{
    if s.len() > 0 {
        let rest = s.drop_last();
        assert forall|k: int| 0 <= k < rest.len() && (#[trigger] rest[k]).name@.len() > 0 implies w.prefixes.contains_key(rest[k].name@[0])
            && w.prefixes[rest[k].name@[0]].contains(rest[k].name@) by {
            assert(rest[k] == s[k]);
        }
        lemma_prefixes_listed(w, rest);
        assert(s.last() == s[s.len() - 1]);
    }
}

/// After symbols are inserted, each of their names is listed under its
/// first character.
proof fn lemma_inserted_names_listed(w: IndexView, s: Seq<Symbol>)
    ensures
        forall|k: int| 0 <= k < s.len() && (#[trigger] s[k]).name@.len() > 0
            ==> w.inserted_all(s).prefixes.contains_key(s[k].name@[0])
                && w.inserted_all(s).prefixes[s[k].name@[0]].contains(s[k].name@),
    decreases s.len(),
{
    if s.len() > 0 {
        let rest = s.drop_last();
        lemma_inserted_names_listed(w, rest);
        let before = w.inserted_all(rest).prefixes;
        let after = w.inserted_all(s).prefixes;
        assert forall|k: int| 0 <= k < s.len() && (#[trigger] s[k]).name@.len() > 0
            implies after.contains_key(s[k].name@[0]) && after[s[k].name@[0]].contains(s[k].name@) by {
            let nm = s[k].name@;
            let c = nm[0];
            let x = s.last();
            if k < rest.len() {
                assert(rest[k] == s[k]);
                assert(before.contains_key(c) && before[c].contains(nm));
                let j = choose|j: int| 0 <= j < before[c].len() && before[c][j] == nm;
                if x.name@.len() > 0 && x.name@[0] == c {
                    let listed = before[c];
                    if !listed.contains(x.name@) {
                        assert(after[c][j] == nm);
                    }
                }
            } else {
                assert(x == s[k]);
                let listed = if before.contains_key(c) { before[c] } else { Seq::empty() };
                if !listed.contains(nm) {
                    assert(after[c][listed.len() as int] == nm);
                }
            }
        }
    }
}

/// Applying the same module update twice is applying it once: the name,
/// package and first-character lists after the second update are those
/// after the first.
pub proof fn law_update_idempotent(v: IndexView, p: Seq<char>, s: Seq<Symbol>)
    requires
        v.valid(),
        forall|k: int| 0 <= k < s.len() ==> (#[trigger] s[k]).package@ == p,
    ensures
        v.package_removed(p).inserted_all(s).package_removed(p).inserted_all(s).names
            == v.package_removed(p).inserted_all(s).names,
        v.package_removed(p).inserted_all(s).package_removed(p).inserted_all(s).packages
            == v.package_removed(p).inserted_all(s).packages,
        v.package_removed(p).inserted_all(s).package_removed(p).inserted_all(s).prefixes
            == v.package_removed(p).inserted_all(s).prefixes,
{
    let u = v.package_removed(p);
    let w = u.inserted_all(s);
    let z = w.package_removed(p);
    lemma_purged_inserted(u, s, p);
    // The name lists of `u` hold no symbol of `p` already.
    assert(purged(u.names, p) =~= u.names) by {
        assert forall|n: Seq<char>| u.names.contains_key(n) implies without_package(u.names[n], p) == u.names[n] by {
            lemma_without_package_idempotent(v.names[n], p);
        }
        assert forall|n: Seq<char>| #[trigger] u.names.contains_key(n) implies without_package(u.names[n], p).len() > 0 by {
            lemma_without_package_idempotent(v.names[n], p);
        }
    }
    assert(u.packages.remove(p) =~= u.packages);
    assert(z.names == u.names);
    assert(z.packages == u.packages);
    lemma_inserted_all_componentwise(z, u, s);
    lemma_inserted_names_listed(u, s);
    lemma_prefixes_listed(z, s);
}

/// Inserting by score adds the entry and nothing else.
proof fn lemma_insert_multiset(sorted: Seq<(Symbol, u32)>, x: (Symbol, u32))
    ensures
        insert_by_score(sorted, x).to_multiset() == sorted.to_multiset().insert(x),
    decreases sorted.len(),
{
    broadcast use vstd::seq_lib::group_to_multiset_ensures;
    if sorted.len() == 0 {
        assert(seq![x] == Seq::<(Symbol, u32)>::empty().push(x));
        assert(sorted =~= Seq::<(Symbol, u32)>::empty());
    } else if sorted.last().1 < x.1 {
        let rest = sorted.drop_last();
        lemma_insert_multiset(rest, x);
        assert(sorted == rest.push(sorted.last()));
        assert(insert_by_score(sorted, x).to_multiset() =~= sorted.to_multiset().insert(x));
    }
}

/// Sorting by score, as `sort_by_score` does, gives a reordering of the
/// entries whose scores descend.
pub proof fn law_sort_by_score_sorts(s: Seq<(Symbol, u32)>)
    ensures
        sort_by_score(s).to_multiset() == s.to_multiset(),
        forall|a: int, b: int| 0 <= a < b < sort_by_score(s).len()
            ==> (#[trigger] sort_by_score(s)[a]).1 >= (#[trigger] sort_by_score(s)[b]).1,
    decreases s.len(),
{
    broadcast use vstd::seq_lib::group_to_multiset_ensures;
    lemma_sort_by_score_ordered(s);
    if s.len() > 0 {
        law_sort_by_score_sorts(s.drop_last());
        lemma_insert_multiset(sort_by_score(s.drop_last()), s.last());
        assert(s == s.drop_last().push(s.last()));
    } else {
        assert(sort_by_score(s) == s);
    }
}

/// The entries of `s` with score `c`, in order.
pub open spec fn entries_of_score(s: Seq<(Symbol, u32)>, c: u32) -> Seq<(Symbol, u32)>
    decreases s.len(),
{
    if s.len() == 0 {
        s
    } else if s.last().1 == c {
        entries_of_score(s.drop_last(), c).push(s.last())
    } else {
        entries_of_score(s.drop_last(), c)
    }
}

proof fn lemma_insert_keeps_score_order(sorted: Seq<(Symbol, u32)>, x: (Symbol, u32), c: u32)
    ensures
        entries_of_score(insert_by_score(sorted, x), c)
            == entries_of_score(sorted, c) + if x.1 == c { seq![x] } else { Seq::empty() },
    decreases sorted.len(),
{
    if sorted.len() == 0 {
        assert(seq![x].drop_last() =~= Seq::<(Symbol, u32)>::empty());
        assert(seq![x].last() == x);
        assert(entries_of_score(seq![x].drop_last(), c) == Seq::<(Symbol, u32)>::empty());
        assert(entries_of_score(sorted, c) == Seq::<(Symbol, u32)>::empty());
        assert(entries_of_score(seq![x], c) =~= entries_of_score(sorted, c) + if x.1 == c { seq![x] } else { Seq::empty() });
    } else if sorted.last().1 >= x.1 {
        assert(sorted.push(x).drop_last() =~= sorted);
        assert(entries_of_score(sorted.push(x), c) =~= entries_of_score(sorted, c) + if x.1 == c { seq![x] } else { Seq::empty() });
    } else {
        let rest = sorted.drop_last();
        lemma_insert_keeps_score_order(rest, x, c);
        let r = insert_by_score(rest, x);
        assert(r.push(sorted.last()).drop_last() =~= r);
        assert(entries_of_score(r.push(sorted.last()), c)
            =~= entries_of_score(sorted, c) + if x.1 == c { seq![x] } else { Seq::empty() });
    }
}

/// Sorting by score is stable: the entries of any one score come in the
/// order they have in `s`.
pub proof fn law_sort_by_score_stable(s: Seq<(Symbol, u32)>, c: u32)
    ensures
        entries_of_score(sort_by_score(s), c) == entries_of_score(s, c),
    decreases s.len(),
{
    if s.len() > 0 {
        law_sort_by_score_stable(s.drop_last(), c);
        lemma_insert_keeps_score_order(sort_by_score(s.drop_last()), s.last(), c);
        assert(entries_of_score(s, c) =~= entries_of_score(s.drop_last(), c)
            + if s.last().1 == c { seq![s.last()] } else { Seq::empty() });
    }
}

/// Handling the same module update twice is handling it once: when `w1`
/// is what updating `v` with a module parsed from its files gives (as
/// `IndexBuilder::apply_module_update` states it) and `w2` is what updating
/// `w1` with the same module gives, `w2` has the name, package and
/// first-character lists of `w1`.
pub proof fn law_module_update_idempotent(
    v: IndexView,
    w1: IndexView,
    w2: IndexView,
    module: ParsedModule,
    files: Seq<(String, Option<String>)>,
)
    requires
        v.valid(),
        symbol_views(module.symbols@) == module_symbols(files, module.path@),
        w1.names == v.package_removed(module.path@).inserted_all(module.symbols@).names,
        w1.packages == v.package_removed(module.path@).inserted_all(module.symbols@).packages,
        w1.prefixes == v.package_removed(module.path@).inserted_all(module.symbols@).prefixes,
        w2.names == w1.package_removed(module.path@).inserted_all(module.symbols@).names,
        w2.packages == w1.package_removed(module.path@).inserted_all(module.symbols@).packages,
        w2.prefixes == w1.package_removed(module.path@).inserted_all(module.symbols@).prefixes,
    ensures
        w2.names == w1.names,
        w2.packages == w1.packages,
        w2.prefixes == w1.prefixes,
{
    let p = module.path@;
    let s = module.symbols@;
    lemma_module_symbols_in_module(files, p);
    assert forall|k: int| 0 <= k < s.len() implies (#[trigger] s[k]).package@ == p by {
        assert(symbol_views(s)[k] == s[k]@);
    }
    law_update_idempotent(v, p, s);
    let u = v.package_removed(p).inserted_all(s);
    lemma_inserted_all_componentwise(w1.package_removed(p), u.package_removed(p), s);
}
/// What `hinted` keeps: every symbol of the list whose package matches.
proof fn lemma_hinted_complete(s: Seq<Symbol>, hint: Seq<char>, t: Symbol)
    requires
        s.contains(t),
        t.package_name@ == hint || contains(t.package@, hint),
    ensures
        hinted(s, hint).contains(t),
    decreases s.len(),
{
    let rest = s.drop_last();
    if s.last() == t {
        assert(hinted(s, hint) == hinted(rest, hint).push(t));
        assert(hinted(s, hint)[hinted(rest, hint).len() as int] == t);
    } else {
        let j = choose|j: int| 0 <= j < s.len() && s[j] == t;
        assert(j < s.len() - 1);
        assert(rest[j] == t);
        lemma_hinted_complete(rest, hint, t);
        let h = hinted(rest, hint);
        let k = choose|k: int| 0 <= k < h.len() && h[k] == t;
        assert(hinted(s, hint)[k] == t);
    }
}

/// A qualified lookup `hint.Name` finds every symbol listed under `Name`
/// whose package name is `hint` or whose package path contains `hint`.
pub proof fn law_qualified_lookup_complete(v: IndexView, query: Seq<char>, t: Symbol)
    requires
        split(query, '.').len() == 2,
        list_at(v.names, split(query, '.')[1]).contains(t),
        t.package_name@ == split(query, '.')[0] || contains(t.package@, split(query, '.')[0]),
    ensures
        qualified_matches(v.names, query).contains(t),
{
    lemma_hinted_complete(list_at(v.names, split(query, '.')[1]), split(query, '.')[0], t);
}

/// When a lookup by the exact query finds symbols, a smart search returns
/// the first `limit` of them, whatever characters the query holds.
pub proof fn law_smart_search_exact_first(v: IndexView, query: Seq<char>, limit: nat, found: Seq<Symbol>)
    requires
        smart_outcome(v, query, limit, found),
        list_at(v.names, query).len() > 0,
    ensures
        found.len() == if limit <= list_at(v.names, query).len() { limit } else { list_at(v.names, query).len() },
        forall|i: int| 0 <= i < found.len() ==> found[i] == list_at(v.names, query)[i],
{
}

/// When no symbol has the exact name but the query is `hint.Name` with
/// qualified matches, a smart search returns the first `limit` of them.
pub proof fn law_smart_search_qualified_next(v: IndexView, query: Seq<char>, limit: nat, found: Seq<Symbol>)
    requires
        smart_outcome(v, query, limit, found),
        list_at(v.names, query).len() == 0,
        query.contains('.'),
        qualified_matches(v.names, query).len() > 0,
    ensures
        found.len() == if limit <= qualified_matches(v.names, query).len() {
            limit
        } else {
            qualified_matches(v.names, query).len()
        },
        forall|i: int| 0 <= i < found.len() ==> found[i] == qualified_matches(v.names, query)[i],
{
}

/// The names of `list` starting with `prefix` are its filter by that test.
proof fn lemma_with_prefix_filter(list: Seq<Seq<char>>, prefix: Seq<char>)
    ensures
        with_prefix(list, prefix) == list.filter(|n: Seq<char>| starts_with(n, prefix)),
    decreases list.len(),
{
    reveal(Seq::filter);
    if list.len() > 0 {
        lemma_with_prefix_filter(list.drop_last(), prefix);
    }
}

/// Completion offers the first `limit` of the names listed under the
/// prefix's first character that start with the prefix: all of them when
/// there are at most `limit`, exactly `limit` otherwise.
pub proof fn law_completions_exact(v: IndexView, prefix: Seq<char>, limit: nat)
    requires
        prefix.len() > 0,
        v.prefixes.contains_key(prefix[0]),
    ensures
        completions(v.prefixes, prefix, limit).len() == if limit <= v.prefixes[prefix[0]].filter(
            |n: Seq<char>| starts_with(n, prefix),
        ).len() {
            limit
        } else {
            v.prefixes[prefix[0]].filter(|n: Seq<char>| starts_with(n, prefix)).len()
        },
        forall|i: int| 0 <= i < completions(v.prefixes, prefix, limit).len()
            ==> completions(v.prefixes, prefix, limit)[i]
                == v.prefixes[prefix[0]].filter(|n: Seq<char>| starts_with(n, prefix))[i],
{
    lemma_with_prefix_filter(v.prefixes[prefix[0]], prefix);
}

/// A fuzzy search returns the best entries of what its walk collected: as
/// many as `limit` allows, and no collected entry left out scores higher
/// than an entry returned.
pub proof fn law_fuzzy_results_best(v: IndexView, query: Seq<char>, limit: nat, hits: Seq<(Symbol, u32)>)
    requires
        fuzzy_outcome(v, query, limit, hits),
    ensures
        exists|order: Seq<Seq<char>>| {
            &&& is_name_order(v.names, order)
            &&& hits.len() == if limit <= gathered(v.names, query, order, limit).len() {
                limit
            } else {
                gathered(v.names, query, order, limit).len()
            }
            &&& forall|e: (Symbol, u32)| #[trigger] hits.contains(e) ==> gathered(v.names, query, order, limit).contains(e)
            &&& forall|i: int, j: int| 0 <= i < hits.len() && 0 <= j < gathered(v.names, query, order, limit).len()
                && #[trigger] gathered(v.names, query, order, limit)[j].1 > #[trigger] hits[i].1
                ==> hits.contains(gathered(v.names, query, order, limit)[j])
        },
{
    broadcast use vstd::seq_lib::group_to_multiset_ensures;
    let order = choose|order: Seq<Seq<char>>| is_name_order(v.names, order)
        && hits == ranked(gathered(v.names, query, order, limit), limit);
    let g = gathered(v.names, query, order, limit);
    law_sort_by_score_sorts(g);
    let sorted = sort_by_score(g);
    assert(sorted.len() == g.len()) by {
        assert(sorted.to_multiset().len() == g.to_multiset().len());
    }
    assert forall|e: (Symbol, u32)| #[trigger] hits.contains(e) implies g.contains(e) by {
        let i = choose|i: int| 0 <= i < hits.len() && hits[i] == e;
        assert(sorted[i] == e);
        assert(sorted.contains(e));
        assert(sorted.to_multiset().count(e) > 0);
    }
    assert forall|i: int, j: int| 0 <= i < hits.len() && 0 <= j < g.len() && #[trigger] g[j].1 > #[trigger] hits[i].1
        implies hits.contains(g[j]) by {
        let e = g[j];
        assert(g.contains(e));
        assert(sorted.to_multiset().count(e) > 0);
        assert(sorted.contains(e));
        let m = choose|m: int| 0 <= m < sorted.len() && sorted[m] == e;
        assert(hits[i] == sorted[i]);
        if m < hits.len() {
            assert(hits[m] == e);
        } else {
            assert(sorted[i].1 >= sorted[m].1);
        }
    }
}

/// The walk only ever adds entries.
proof fn lemma_gathered_grows(names: Map<Seq<char>, Seq<Symbol>>, query: Seq<char>, order: Seq<Seq<char>>, limit: nat)
    requires
        order.len() > 0,
    ensures
        gathered(names, query, order.drop_last(), limit).len() <= gathered(names, query, order, limit).len(),
        forall|k: int| 0 <= k < gathered(names, query, order.drop_last(), limit).len()
            ==> #[trigger] gathered(names, query, order, limit)[k] == gathered(names, query, order.drop_last(), limit)[k],
{
}

/// A walk that collects fewer than `3 * limit` entries never stopped: it
/// holds every symbol of every name that matches the query, paired with
/// that name's score.
pub proof fn law_fuzzy_walk_complete(
    names: Map<Seq<char>, Seq<Symbol>>,
    query: Seq<char>,
    order: Seq<Seq<char>>,
    limit: nat,
)
    requires
        gathered(names, query, order, limit).len() < 3 * limit,
    ensures
        forall|i: int, j: int| 0 <= i < order.len() && name_score(query, order[i]).is_some()
            && 0 <= j < list_at(names, order[i]).len()
            ==> gathered(names, query, order, limit).contains(
                (#[trigger] list_at(names, #[trigger] order[i])[j], name_score(query, order[i]).unwrap() as u32),
            ),
    decreases order.len(),
{
    if order.len() > 0 {
        let rest = order.drop_last();
        lemma_gathered_grows(names, query, order, limit);
        law_fuzzy_walk_complete(names, query, rest, limit);
        let g = gathered(names, query, order, limit);
        let gr = gathered(names, query, rest, limit);
        assert forall|i: int, j: int| 0 <= i < order.len() && name_score(query, order[i]).is_some()
            && 0 <= j < list_at(names, order[i]).len()
            implies g.contains((#[trigger] list_at(names, #[trigger] order[i])[j], name_score(query, order[i]).unwrap() as u32)) by {
            let e = (list_at(names, order[i])[j], name_score(query, order[i]).unwrap() as u32);
            if i < rest.len() {
                assert(rest[i] == order[i]);
                assert(gr.contains((list_at(names, rest[i])[j], name_score(query, rest[i]).unwrap() as u32)));
                let k = choose|k: int| 0 <= k < gr.len() && gr[k] == e;
                assert(g[k] == e);
            } else {
                let n = order.last();
                assert(order[i] == n);
                let sc = name_score(query, n).unwrap();
                assert(g == gr + scored(list_at(names, n), sc as u32));
                assert(g[gr.len() + j] == e);
            }
        }
    }
}

} // verus!
