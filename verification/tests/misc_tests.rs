use std::sync::Arc;
use woofind::api::{command_results, default_limit, health_response, search_response, search_results, SearchRequest, SymbolDto};
use woofind::cache::{cache_stats, is_cache_valid, metadata_for, CacheMetadata, MmapCache, ModuleCache};
use woofind::index::builder::IndexBuilder;
use woofind::index::query::QueryEngine;
use woofind::index::{InvertedIndex, Symbol, SymbolKind};
use woofind::parser::GoModuleParser;
use woofind::table::{column_widths, table_lines};
use woofind::VERSION;

fn misc_symbol(name: &str, package: &str) -> Symbol {
    Symbol {
        name: name.to_string(),
        package: package.to_string(),
        package_name: "p".to_string(),
        kind: SymbolKind::Method,
        version: None,
        import_path: package.to_string(),
        doc: Some("doc".to_string()),
        signature: None,
    }
}

#[test]
fn kind_labels() {
    assert_eq!(SymbolKind::Function.label(), "func");
    assert_eq!(SymbolKind::Interface.label(), "interface");
    assert_eq!(SymbolKind::Method.label(), "method");
}

#[test]
fn cache_freshness() {
    let fresh = CacheMetadata { version: VERSION.to_string(), created_at: 1000, symbol_count: 1, module_count: 0 };
    assert!(is_cache_valid(&Some(fresh.clone()), 1000 + 24 * 3600, 24));
    assert!(is_cache_valid(&Some(fresh.clone()), 1000 + 25 * 3600 - 1, 24));
    assert!(!is_cache_valid(&Some(fresh.clone()), 1000 + 25 * 3600, 24));
    let old_version = CacheMetadata { version: "0.0.0".to_string(), ..fresh.clone() };
    assert!(!is_cache_valid(&Some(old_version), 1000, 24));
    assert!(!is_cache_valid(&None, 1000, 24));
    let stats = cache_stats(&fresh, 42);
    assert_eq!(stats.file_size_bytes, 42);
    assert_eq!(stats.created_at, 1000);
}

#[test]
fn cache_files() {
    let cache = MmapCache::new("/tmp/c".to_string());
    assert_eq!(cache.index_path(), "/tmp/c/index.bin");
    assert_eq!(cache.metadata_path(), "/tmp/c/metadata.json");
    let modules = ModuleCache::new("/tmp/m/".to_string());
    assert_eq!(modules.module_file("github.com/a\\b"), "/tmp/m/github.com_a_b.bin");
    // Paths that differ only in `_` versus `/` share a file.
    assert_eq!(modules.module_file("github.com/a_b/c"), "/tmp/m/github.com_a_b_c.bin");
    assert_eq!(modules.module_file("github.com/a/b_c"), "/tmp/m/github.com_a_b_c.bin");
    assert_eq!(modules.module_file("../../etc/x"), "/tmp/m/.._.._etc_x.bin");
    let mut index = InvertedIndex::new();
    index.insert(misc_symbol("A", "p"));
    let meta = metadata_for(&index, 7);
    assert_eq!(meta.version, VERSION);
    assert_eq!(meta.symbol_count, 1);
    assert_eq!(meta.created_at, 7);
}

#[test]
fn api_answers() {
    assert_eq!(default_limit(), 10);
    let health = health_response();
    assert_eq!(health.status, "ok");
    assert_eq!(health.version, VERSION);
    assert_eq!(health.uptime_seconds, 0);
    let dto = SymbolDto::from_symbol(&misc_symbol("Run", "x/y"));
    assert_eq!(dto.kind, "method");
    assert_eq!(dto.doc, Some("doc".to_string()));
    let mut index = InvertedIndex::new();
    index.insert(misc_symbol("Run", "x/y"));
    let engine = QueryEngine::new(Arc::new(index));
    let request = SearchRequest { q: "Run".to_string(), limit: 10, fuzzy: false };
    let results = search_results(&engine, &request);
    assert_eq!(results.len(), 1);
    let response = search_response(request.q.clone(), results, 5);
    assert_eq!(response.count, 1);
    assert_eq!(response.query, "Run");
    let fuzzy = SearchRequest { q: "Rn".to_string(), limit: 10, fuzzy: true };
    assert_eq!(search_results(&engine, &fuzzy).len(), 1);
}

#[test]
fn table_layout() {
    let headers = vec!["Metric".to_string(), "Value".to_string()];
    let rows = vec![
        vec!["Total Symbols".to_string(), "12".to_string()],
        vec!["Cache".to_string(), "1234567".to_string(), "ignored column".to_string()],
    ];
    assert_eq!(column_widths(&headers, &rows), vec![13, 7]);
    assert_eq!(column_widths(&headers, &vec![]), vec![6, 5]);
}

#[test]
fn builder_adds_modules_and_updates() {
    let parser = GoModuleParser::new();
    let module = parser
        .parse_module_sources(
            "/src/example/go.mod",
            "module test.com/example\n\ngo 1.21\n",
            vec![("a.go".to_string(), Some("package example\nfunc A() {}\nfunc B() {}\n".to_string()))],
        )
        .unwrap();
    let mut builder = IndexBuilder::new("/tmp/cache".to_string());
    builder.build_from_modules(&vec![module]);
    assert_eq!(builder.index().stats().total_symbols, 2);
    assert_eq!(builder.index().stats().total_modules, 1);

    let changed = parser
        .parse_module_sources(
            "/src/example/go.mod",
            "module test.com/example\n",
            vec![("a.go".to_string(), Some("package example\nfunc C() {}\n".to_string()))],
        )
        .unwrap();
    builder.apply_module_update(&changed);
    assert!(builder.index().get_by_name("A").is_none());
    assert_eq!(builder.index().get_by_name("C").unwrap().len(), 1);
    // The update stores the module's record again.
    assert_eq!(builder.index().stats().total_modules, 1);

    let mut other = IndexBuilder::new("/tmp/cache".to_string());
    other.merge_cached(builder.index());
    assert_eq!(other.index().stats().total_symbols, 1);
    builder.remove_module("test.com/example");
    assert!(builder.index().is_empty());
}

#[test]
fn test_index_builder() {
    // A module whose go.mod names it but that has no Go code.
    let parser = GoModuleParser::new();
    let module = parser.parse_module_sources("/tmp/example/go.mod", "module test.com/example\n\ngo 1.21\n", vec![]).unwrap();
    let mut builder = IndexBuilder::new("/tmp/woofind-cache".to_string());
    builder.build_from_modules(&vec![module]);
    assert!(builder.index().is_empty());
    assert_eq!(builder.index().stats().total_modules, 1);
}

#[test]
fn stats_summary_text() {
    let mut index = InvertedIndex::new();
    assert_eq!(index.stats().summary(), "Symbols: 0 | Packages: 0 | Modules: 0");
    for i in 0..12 {
        index.insert(misc_symbol(&format!("S{}", i), if i % 2 == 0 { "a" } else { "b" }));
    }
    assert_eq!(index.stats().summary(), "Symbols: 12 | Packages: 2 | Modules: 0");
}

#[test]
fn module_update_replaces_its_package_only() {
    let parser = GoModuleParser::new();
    let mut builder = IndexBuilder::new("/tmp/woofind-cache".to_string());
    let first = parser
        .parse_module_sources(
            "/src/a/go.mod",
            "module example.com/a\n",
            vec![("a.go".to_string(), Some("package a\nfunc Old() {}\nvar Gone = 1\n".to_string()))],
        )
        .unwrap();
    let other = parser
        .parse_module_sources(
            "/src/b/go.mod",
            "module example.com/b\n",
            vec![("b.go".to_string(), Some("package b\ntype Kept struct{}\n".to_string()))],
        )
        .unwrap();
    builder.build_from_modules(&vec![first, other]);
    let updated = parser
        .parse_module_sources(
            "/src/a/go.mod",
            "module example.com/a\n",
            vec![("a.go".to_string(), Some("package a\nfunc New() {}\nfunc Newer() {}\n".to_string()))],
        )
        .unwrap();
    builder.apply_module_update(&updated);
    let names: Vec<String> =
        builder.index().get_by_package("example.com/a").unwrap().iter().map(|s| s.name.clone()).collect();
    assert_eq!(names, vec!["New".to_string(), "Newer".to_string()]);
    let kept = builder.index().get_by_package("example.com/b").unwrap();
    assert_eq!(kept.len(), 1);
    assert_eq!(kept[0].name, "Kept");
    assert_eq!(kept[0].kind, SymbolKind::Struct);
}

#[test]
fn removing_a_go_mod_removes_its_module() {
    let parser = GoModuleParser::new();
    let a = parser
        .parse_module_sources(
            "/src/d/go.mod",
            "module example.com/mod\n",
            vec![("/src/d/a.go".to_string(), Some("package mod\nfunc A() {}\n".to_string()))],
        )
        .unwrap();
    let b = parser
        .parse_module_sources(
            "/src/e/go.mod",
            "module example.com/other\n",
            vec![("/src/e/b.go".to_string(), Some("package other\nfunc A() {}\n".to_string()))],
        )
        .unwrap();
    let mut builder = IndexBuilder::new("/tmp/woofind-cache".to_string());
    builder.build_from_modules(&vec![a, b]);
    builder.remove_manifest("/src/nowhere/go.mod");
    assert_eq!(builder.index().stats().total_packages, 2);
    builder.remove_manifest("/src/d/go.mod");
    assert!(builder.index().get_by_package("example.com/mod").is_none());
    let left = builder.index().get_by_name("A").unwrap();
    assert_eq!(left.len(), 1);
    assert_eq!(left[0].package, "example.com/other");
    assert_eq!(builder.index().stats().total_modules, 1);
}

#[test]
fn stats_count_symbols_not_names() {
    let mut index = InvertedIndex::new();
    index.insert(misc_symbol("NewClient", "github.com/redis/go-redis/v9"));
    index.insert(misc_symbol("NewClient", "github.com/go-redis/redis/v8"));
    index.insert(misc_symbol("HandleFunc", "net/http"));
    assert_eq!(index.stats().total_symbols, 3);
    assert_eq!(index.stats().total_packages, 3);
    assert_eq!(metadata_for(&index, 0).symbol_count, 3);
}

#[test]
fn table_text_lines() {
    let headers = vec!["Metric".to_string(), "Value".to_string()];
    let rows = vec![
        vec!["Total Symbols".to_string(), "12".to_string()],
        vec!["Size".to_string(), "1.5 MB".to_string(), "extra".to_string()],
    ];
    assert_eq!(
        table_lines(&headers, &rows),
        vec![
            "  Metric         Value   ".to_string(),
            "  -------------  ------  ".to_string(),
            "  Total Symbols  12      ".to_string(),
            "  Size           1.5 MB  ".to_string(),
        ]
    );
    assert_eq!(table_lines(&headers, &vec![]), vec!["No data to display.".to_string()]);
    // Padding counts characters.
    let wide = vec![vec!["é".to_string()]];
    assert_eq!(table_lines(&vec!["a".to_string()], &wide), vec!["  a   ", "  --  ", "  é   "]);
}

#[test]
fn module_update_twice_is_once() {
    let parser = GoModuleParser::new();
    let module = parser
        .parse_module_sources(
            "/src/a/go.mod",
            "module example.com/a\n",
            vec![("/src/a/a.go".to_string(), Some("package a\nfunc Run() {}\nconst Max = 3\n".to_string()))],
        )
        .unwrap();
    let mut builder = IndexBuilder::new("/tmp/woofind-cache".to_string());
    builder.apply_module_update(&module);
    let once: Vec<String> = builder.index().get_by_package("example.com/a").unwrap().iter().map(|s| s.name.clone()).collect();
    builder.apply_module_update(&module);
    let twice: Vec<String> = builder.index().get_by_package("example.com/a").unwrap().iter().map(|s| s.name.clone()).collect();
    assert_eq!(once, twice);
    assert_eq!(builder.index().get_by_name("Run").unwrap().len(), 1);
    assert_eq!(builder.index().stats().total_symbols, 2);
    assert_eq!(builder.index().stats().total_modules, 1);
}

#[test]
fn command_results_attach_scores() {
    let mut index = InvertedIndex::new();
    index.insert(misc_symbol("Run", "x/y"));
    index.insert(misc_symbol("Runner", "x/z"));
    let engine = QueryEngine::new(Arc::new(index));
    let fuzzy = command_results(&engine, "Run", 10, true);
    assert_eq!(fuzzy.len(), 2);
    assert!(fuzzy.iter().all(|r| r.score.is_some()));
    assert!(fuzzy[0].score >= fuzzy[1].score);
    let exact = command_results(&engine, "Run", usize::MAX, false);
    assert_eq!(exact.len(), 1);
    assert_eq!(exact[0].dto.package, "x/y");
    assert_eq!(exact[0].dto.kind, "method");
    assert!(exact[0].score.is_none());
}
