use std::sync::Arc;
use woofind::cache::SerializedIndex;
use woofind::index::query::QueryEngine;
use woofind::index::{InvertedIndex, ModuleInfo, Symbol, SymbolKind};
use woofind::{Woofind, VERSION};

fn stub_symbol(name: &str, package: &str, package_name: &str) -> Symbol {
    Symbol {
        name: name.to_string(),
        package: package.to_string(),
        package_name: package_name.to_string(),
        kind: SymbolKind::Function,
        version: None,
        import_path: package.to_string(),
        doc: None,
        signature: None,
    }
}

fn create_test_index() -> Arc<InvertedIndex> {
    let mut index = InvertedIndex::new();

    let symbols = vec![
        Symbol {
            name: "NewClient".to_string(),
            package: "github.com/redis/go-redis/v9".to_string(),
            package_name: "redis".to_string(),
            kind: SymbolKind::Function,
            version: Some("v9.5.1".to_string()),
            import_path: "github.com/redis/go-redis/v9".to_string(),
            doc: None,
            signature: None,
        },
        Symbol {
            name: "NewClient".to_string(),
            package: "github.com/go-redis/redis/v8".to_string(),
            package_name: "redis".to_string(),
            kind: SymbolKind::Function,
            version: Some("v8.11.5".to_string()),
            import_path: "github.com/go-redis/redis/v8".to_string(),
            doc: None,
            signature: None,
        },
        Symbol {
            name: "HandleFunc".to_string(),
            package: "net/http".to_string(),
            package_name: "http".to_string(),
            kind: SymbolKind::Function,
            version: None,
            import_path: "net/http".to_string(),
            doc: None,
            signature: None,
        },
    ];

    for symbol in symbols {
        index.insert(symbol);
    }

    Arc::new(index)
}

#[test]
fn test_concurrent_insert() {
    let mut index = InvertedIndex::new();
    let symbol = Symbol {
        name: "NewClient".to_string(),
        package: "github.com/redis/go-redis/v9".to_string(),
        package_name: "redis".to_string(),
        kind: SymbolKind::Function,
        version: Some("v9.5.1".to_string()),
        import_path: "github.com/redis/go-redis/v9".to_string(),
        doc: Some("Creates a new Redis client".to_string()),
        signature: Some("func(opt *Options) *Client".to_string()),
    };

    index.insert(symbol.clone());

    let result = index.get_by_name("NewClient");
    assert!(result.is_some());
    assert_eq!(result.unwrap().len(), 1);
}

#[test]
fn test_exact_lookup() {
    let index = create_test_index();
    let engine = QueryEngine::new(index);

    let results = engine.exact_lookup("NewClient");
    assert_eq!(results.len(), 2);
}

#[test]
fn test_qualified_lookup() {
    let index = create_test_index();
    let engine = QueryEngine::new(index);

    let results = engine.qualified_lookup("redis.NewClient");
    assert_eq!(results.len(), 2);
}

#[test]
fn test_client_creation() {
    let client = Woofind::new();
    let stats = client.stats();
    assert_eq!(stats.total_symbols, 0);
}

#[test]
fn test_default() {
    let client: Woofind = Default::default();
    assert!(client.is_empty());
}

#[test]
fn test_version() {
    assert!(!VERSION.is_empty());
}

#[test]
fn test_cache_save_load() {
    // The stored form of an index, loaded back.
    let mut index = InvertedIndex::new();
    index.insert(Symbol {
        name: "Test".to_string(),
        package: "test.com/example".to_string(),
        package_name: "example".to_string(),
        kind: SymbolKind::Function,
        version: None,
        import_path: "test.com/example".to_string(),
        doc: None,
        signature: None,
    });

    // Saving keeps the one symbol; loading gives an index holding it.
    let stored = SerializedIndex::from_index(&index);
    assert_eq!(stored.symbols.len(), 1);
    let loaded = stored.to_index();
    assert_eq!(loaded.stats().total_symbols, 1);
}

#[test]
fn insert_appends_in_order_to_name_and_package() {
    let mut index = InvertedIndex::new();
    index.insert(stub_symbol("Get", "a/x", "x"));
    index.insert(stub_symbol("Put", "a/x", "x"));
    index.insert(stub_symbol("Get", "b/y", "y"));
    let by_name = index.get_by_name("Get").unwrap();
    assert_eq!(by_name.len(), 2);
    assert_eq!(by_name[0].package, "a/x");
    assert_eq!(by_name[1].package, "b/y");
    let by_package = index.get_by_package("a/x").unwrap();
    assert_eq!(by_package.len(), 2);
    assert_eq!(by_package[0].name, "Get");
    assert_eq!(by_package[1].name, "Put");
    assert!(index.get_by_name("Missing").is_none());
    let stats = index.stats();
    // Three symbols under two names.
    assert_eq!(stats.total_symbols, 3);
    assert_eq!(stats.total_packages, 2);
    assert_eq!(stats.total_modules, 0);
}

#[test]
fn remove_package_drops_its_symbols_only() {
    let mut index = InvertedIndex::new();
    index.insert(stub_symbol("Get", "a/x", "x"));
    index.insert(stub_symbol("Only", "a/x", "x"));
    index.insert(stub_symbol("Get", "b/y", "y"));
    index.record_module(ModuleInfo {
        path: "a/x".to_string(),
        version: String::new(),
        go_version: "1.21".to_string(),
        symbol_count: 2,
        manifest: "/src/x/go.mod".to_string(),
    });
    assert_eq!(index.stats().total_modules, 1);
    index.remove_package("a/x");
    let left = index.get_by_name("Get").unwrap();
    assert_eq!(left.len(), 1);
    assert_eq!(left[0].package, "b/y");
    assert!(index.get_by_name("Only").is_none());
    assert!(index.get_by_package("a/x").is_none());
    assert_eq!(index.stats().total_symbols, 1);
    assert_eq!(index.stats().total_packages, 1);
    assert_eq!(index.stats().total_modules, 0);
}

#[test]
fn remove_unknown_package_changes_nothing() {
    let mut index = InvertedIndex::new();
    index.insert(stub_symbol("Get", "a/x", "x"));
    index.remove_package("zzz");
    assert_eq!(index.get_by_name("Get").unwrap().len(), 1);
    assert_eq!(index.stats().total_packages, 1);
}

#[test]
fn batch_insert_inserts_in_order() {
    let mut index = InvertedIndex::new();
    index.batch_insert(vec![stub_symbol("A", "p", "p"), stub_symbol("B", "p", "p"), stub_symbol("A", "q", "q")]);
    assert_eq!(index.get_by_name("A").unwrap()[1].package, "q");
    assert_eq!(index.get_by_package("p").unwrap().len(), 2);
    let mut names = index.all_symbol_names();
    names.sort();
    assert_eq!(names, vec!["A".to_string(), "B".to_string()]);
}

#[test]
fn empty_index_is_empty() {
    let mut index = InvertedIndex::new();
    assert!(index.is_empty());
    assert_eq!(index.stats().total_symbols, 0);
    index.insert(stub_symbol("X", "p", "p"));
    assert!(!index.is_empty());
    index.remove_package("p");
    assert!(index.is_empty());
}

#[test]
fn stored_index_round_trip_keeps_names_and_modules() {
    let mut index = InvertedIndex::new();
    index.insert(stub_symbol("Get", "a/x", "x"));
    index.insert(stub_symbol("Get", "b/y", "y"));
    index.insert(stub_symbol("Put", "a/x", "x"));
    index.record_module(ModuleInfo {
        path: "a/x".to_string(),
        version: "v1.0.0".to_string(),
        go_version: "1.22".to_string(),
        symbol_count: 2,
        manifest: "/src/x/go.mod".to_string(),
    });
    let stored = SerializedIndex::from_index(&index);
    assert_eq!(stored.symbols.len(), 3);
    assert_eq!(stored.modules.len(), 1);
    let loaded = stored.to_index();
    let gets = loaded.get_by_name("Get").unwrap();
    assert_eq!(gets.len(), 2);
    assert_eq!(gets[0].package, "a/x");
    assert_eq!(gets[1].package, "b/y");
    assert_eq!(loaded.stats().total_symbols, 3);
    assert_eq!(loaded.stats().total_modules, 1);
    assert_eq!(loaded.module_infos()[0].version, "v1.0.0");
}

#[test]
fn stored_index_round_trip_keeps_packages() {
    let mut index = InvertedIndex::new();
    index.insert(stub_symbol("Get", "a/x", "x"));
    index.insert(stub_symbol("Put", "b/y", "y"));
    index.insert(stub_symbol("Put", "c/z", "z"));
    let loaded = SerializedIndex::from_index(&index).to_index();
    assert_eq!(loaded.stats().total_packages, 3);
    assert_eq!(loaded.get_by_package("b/y").unwrap()[0].name, "Put");
    assert_eq!(loaded.get_by_package("a/x").unwrap().len(), 1);
}

#[test]
fn stored_index_round_trip_keeps_package_contents() {
    let mut index = InvertedIndex::new();
    index.insert(stub_symbol("Put", "a/x", "x"));
    index.insert(stub_symbol("Get", "a/x", "x"));
    index.insert(stub_symbol("Get", "b/y", "y"));
    let loaded = SerializedIndex::from_index(&index).to_index();
    let mut before: Vec<String> = index.get_by_package("a/x").unwrap().iter().map(|s| s.name.clone()).collect();
    let mut after: Vec<String> = loaded.get_by_package("a/x").unwrap().iter().map(|s| s.name.clone()).collect();
    before.sort();
    after.sort();
    assert_eq!(before, after);
    assert_eq!(loaded.stats().total_symbols, index.stats().total_symbols);
    assert_eq!(loaded.stats().total_packages, index.stats().total_packages);
}
