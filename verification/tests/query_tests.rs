use std::sync::Arc;
use woofind::index::query::{rank_by_score, FuzzyMatcher, QueryEngine};
use woofind::index::similarity::SimpleFuzzyMatcher;
use woofind::index::{InvertedIndex, Symbol, SymbolKind};
use woofind::Woofind;

fn query_symbol(name: &str, package: &str, package_name: &str) -> Symbol {
    Symbol {
        name: name.to_string(),
        package: package.to_string(),
        package_name: package_name.to_string(),
        kind: SymbolKind::Function,
        version: None,
        import_path: package.to_string(),
        doc: None,
        signature: None,
    }
}

fn sample_index() -> InvertedIndex {
    let mut index = InvertedIndex::new();
    index.insert(query_symbol("NewClient", "github.com/redis/go-redis/v9", "redis"));
    index.insert(query_symbol("NewClient", "github.com/go-redis/redis/v8", "redis"));
    index.insert(query_symbol("HandleFunc", "net/http", "http"));
    index.insert(query_symbol("NewRequest", "net/http", "http"));
    index.insert(query_symbol("Background", "context", "context"));
    index
}

#[test]
fn test_subsequence_match() {
    assert!(SimpleFuzzyMatcher::is_subsequence("ncl", "NewClient"));
    assert!(SimpleFuzzyMatcher::is_subsequence("hdl", "HandleFunc"));
    assert!(!SimpleFuzzyMatcher::is_subsequence("xyz", "NewClient"));
}

#[test]
fn subsequence_edge_cases() {
    assert!(SimpleFuzzyMatcher::is_subsequence("", ""));
    assert!(SimpleFuzzyMatcher::is_subsequence("", "abc"));
    assert!(!SimpleFuzzyMatcher::is_subsequence("a", ""));
    assert!(SimpleFuzzyMatcher::is_subsequence("NC", "newclient"));
    assert!(!SimpleFuzzyMatcher::is_subsequence("lcn", "NewClient"));
    assert!(SimpleFuzzyMatcher::is_subsequence("nn", "NewClient"));
    assert!(!SimpleFuzzyMatcher::is_subsequence("nnn", "NewClient"));
}

#[test]
fn subsequence_compares_lowercase_mappings() {
    assert!(SimpleFuzzyMatcher::is_subsequence("ÄB", "xäyb"));
    assert!(SimpleFuzzyMatcher::is_subsequence("a.z", "A.Z"));
    assert!(!SimpleFuzzyMatcher::is_subsequence("ä", "a"));
}

#[test]
fn edit_distance_values() {
    assert_eq!(SimpleFuzzyMatcher::edit_distance("kitten", "sitting"), 3);
    assert_eq!(SimpleFuzzyMatcher::edit_distance("", "abc"), 3);
    assert_eq!(SimpleFuzzyMatcher::edit_distance("abc", ""), 3);
    assert_eq!(SimpleFuzzyMatcher::edit_distance("NewClient", "NewClient"), 0);
    assert_eq!(SimpleFuzzyMatcher::edit_distance("flaw", "lawn"), 2);
    assert_eq!(SimpleFuzzyMatcher::edit_distance("lawn", "flaw"), 2);
    assert_eq!(SimpleFuzzyMatcher::edit_distance("héllo", "hello"), 1);
}

#[test]
fn qualified_lookup_by_path_part_and_by_name() {
    let engine = QueryEngine::new(Arc::new(sample_index()));
    assert_eq!(engine.qualified_lookup("go-redis.NewClient").len(), 2);
    assert_eq!(engine.qualified_lookup("v9.NewClient").len(), 1);
    assert_eq!(engine.qualified_lookup("http.NewClient").len(), 0);
    assert_eq!(engine.qualified_lookup("NewClient").len(), 2);
    assert_eq!(engine.qualified_lookup("a.b.NewClient").len(), 0);
    assert_eq!(engine.qualified_lookup("http.Missing").len(), 0);
}

#[test]
fn smart_search_prefers_exact_then_qualified() {
    let engine = QueryEngine::new(Arc::new(sample_index()));
    assert_eq!(engine.smart_search("NewClient", 10).len(), 2);
    // The limit caps exact and qualified hits too.
    assert_eq!(engine.smart_search("NewClient", 1).len(), 1);
    assert_eq!(engine.smart_search("NewClient", 1)[0].package, "github.com/redis/go-redis/v9");
    assert_eq!(engine.smart_search("redis.NewClient", 1).len(), 1);
    assert!(engine.smart_search("NewClient", 0).is_empty());
    let qualified = engine.smart_search("http.HandleFunc", 10);
    assert_eq!(qualified.len(), 1);
    assert_eq!(qualified[0].package, "net/http");
}

#[test]
fn fuzzy_search_finds_close_names() {
    let engine = QueryEngine::new(Arc::new(sample_index()));
    let hits = engine.fuzzy_search("NewCli", 10);
    assert!(!hits.is_empty());
    assert!(hits.iter().all(|(s, _)| s.name == "NewClient"));
    for pair in hits.windows(2) {
        assert!(pair[0].1 >= pair[1].1);
    }
    assert!(engine.fuzzy_search("zzzzqqq", 10).is_empty());
    assert!(engine.fuzzy_search("NewCli", 0).is_empty());
    assert_eq!(engine.fuzzy_search("e", 1).len(), 1);
}

#[test]
fn fuzzy_gather_stops_after_three_times_the_limit() {
    let index = Arc::new(sample_index());
    let matcher = FuzzyMatcher::new(Arc::clone(&index));
    let names = vec!["NewClient".to_string(), "NewRequest".to_string(), "HandleFunc".to_string()];
    // NewClient alone brings 2 entries: with limit 0 the walk stops after it.
    let hits = matcher.gather(&names, "e", 0);
    assert_eq!(hits.len(), 2);
    // With limit 1 the walk stops once it has 3 entries.
    let hits = matcher.gather(&names, "e", 1);
    assert_eq!(hits.len(), 3);
    // A name that is not indexed contributes nothing.
    let hits = matcher.gather(&vec!["Nope".to_string()], "N", 5);
    assert!(hits.is_empty());
}

#[test]
fn ranking_is_stable_and_truncated() {
    let entries = vec![
        (query_symbol("a", "p", "p"), 5),
        (query_symbol("b", "p", "p"), 9),
        (query_symbol("c", "p", "p"), 5),
        (query_symbol("d", "p", "p"), 7),
    ];
    let best = rank_by_score(&entries, 3);
    let names: Vec<&str> = best.iter().map(|(s, _)| s.name.as_str()).collect();
    assert_eq!(names, vec!["b", "d", "a"]);
    let all = rank_by_score(&entries, 10);
    let names: Vec<&str> = all.iter().map(|(s, _)| s.name.as_str()).collect();
    assert_eq!(names, vec!["b", "d", "a", "c"]);
    assert!(rank_by_score(&entries, 0).is_empty());
}

#[test]
fn autocomplete_by_prefix() {
    let engine = QueryEngine::new(Arc::new(sample_index()));
    let mut all = engine.autocomplete("New", 10);
    all.sort();
    assert_eq!(all, vec!["NewClient".to_string(), "NewRequest".to_string()]);
    assert_eq!(engine.autocomplete("New", 1).len(), 1);
    assert_eq!(engine.autocomplete("NewR", 10), vec!["NewRequest".to_string()]);
    assert!(engine.autocomplete("", 10).is_empty());
    assert!(engine.autocomplete("Z", 10).is_empty());
    assert!(engine.autocomplete("New", 0).is_empty());
}

#[test]
fn autocomplete_lists_a_name_once() {
    let mut index = InvertedIndex::new();
    index.insert(query_symbol("Get", "a", "a"));
    index.insert(query_symbol("Get", "b", "b"));
    let engine = QueryEngine::new(Arc::new(index));
    assert_eq!(engine.autocomplete("G", 10), vec!["Get".to_string()]);
}

#[test]
fn client_queries() {
    let client = Woofind::from_index(sample_index());
    assert_eq!(client.lookup("NewClient").len(), 2);
    assert_eq!(client.search("redis.NewClient", 10).len(), 2);
    assert!(client.fuzzy_search("Backgrnd", 5).iter().any(|s| s.name == "Background"));
    assert_eq!(client.autocomplete("Hand", 5), vec!["HandleFunc".to_string()]);
    assert_eq!(client.stats().total_symbols, 5);
    assert_eq!(client.stats().total_packages, 4);
    assert!(!client.is_empty());
}

#[test]
fn fuzzy_hits_are_indexed_matches() {
    let index = Arc::new(sample_index());
    let engine = QueryEngine::new(Arc::clone(&index));
    let hits = engine.fuzzy_search("e", 10);
    // Every name but Background has an `e`.
    assert_eq!(hits.len(), 4);
    for (symbol, score) in &hits {
        let listed = index.get_by_name(&symbol.name).unwrap();
        assert!(listed.iter().any(|s| s.package == symbol.package));
        assert!(*score > 0);
    }
    // Two symbols of one name share that name's score.
    let clients: Vec<u32> = hits.iter().filter(|(s, _)| s.name == "NewClient").map(|(_, sc)| *sc).collect();
    assert_eq!(clients.len(), 2);
    assert_eq!(clients[0], clients[1]);
}

#[test]
fn edit_distance_triangle_and_zero() {
    let words = ["kitten", "sitting", "mitten", "", "fitting"];
    for a in words {
        for b in words {
            assert_eq!(SimpleFuzzyMatcher::edit_distance(a, b) == 0, a == b);
            for c in words {
                assert!(
                    SimpleFuzzyMatcher::edit_distance(a, c)
                        <= SimpleFuzzyMatcher::edit_distance(a, b) + SimpleFuzzyMatcher::edit_distance(b, c)
                );
            }
        }
    }
}

#[test]
fn exact_and_qualified_hits_take_any_limit() {
    let engine = QueryEngine::new(Arc::new(sample_index()));
    assert_eq!(engine.smart_search("NewClient", usize::MAX).len(), 2);
    assert_eq!(engine.smart_search("http.HandleFunc", usize::MAX).len(), 1);
    assert!(!engine.falls_back_to_fuzzy("NewClient"));
    assert!(!engine.falls_back_to_fuzzy("http.HandleFunc"));
    assert!(engine.falls_back_to_fuzzy("NewCli"));
    assert!(engine.falls_back_to_fuzzy("nope.HandleFunc"));
    let client = Woofind::from_index(sample_index());
    assert_eq!(client.search("NewClient", usize::MAX).len(), 2);
}
