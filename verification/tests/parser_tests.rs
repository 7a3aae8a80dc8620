use woofind::index::SymbolKind;
use woofind::parser::{GoModuleParser, ParseError};
use woofind::paths::{is_go_mod_file, is_indexed_go_file, join_path, parent_of};
use woofind::index::builder::{classify_event, plan_event, FsEventKind, IndexAction, IndexEvent};

#[test]
fn test_parse_go_mod() {
    let parser = GoModuleParser::new();
    let content = r#"module github.com/example/test

go 1.21

require (
    github.com/some/dep v1.0.0
)
"#;

    let (module, go_version) = parser.parse_go_mod_content(content).unwrap();
    assert_eq!(module, "github.com/example/test");
    assert_eq!(go_version, "1.21");
}

#[test]
fn test_extract_package_name() {
    let parser = GoModuleParser::new();
    let content = r#"package mypackage

import "fmt"

func main() {}
"#;

    assert_eq!(parser.extract_package_name(content), "mypackage");
}

#[test]
fn go_mod_defaults_and_errors() {
    let parser = GoModuleParser::new();
    let (m, g) = parser.parse_go_mod_content("module \"quoted/mod\"\r\n").unwrap();
    assert_eq!(m, "quoted/mod");
    assert_eq!(g, "1.21");
    let (_, g) = parser.parse_go_mod_content("go 1.22\nmodule a\ngo 1.23\n").unwrap();
    assert_eq!(g, "1.23");
    assert_eq!(parser.parse_go_mod_content("go 1.22\n"), Err(ParseError::NoModulePath));
    assert_eq!(parser.parse_go_mod_content(""), Err(ParseError::NoModulePath));
    assert_eq!(ParseError::NoModulePath.message(), "No module path found in go.mod");
}

#[test]
fn version_lines() {
    let parser = GoModuleParser::new();
    assert_eq!(parser.extract_version("module a/b\n\ngo 1.21\n"), None);
    assert_eq!(
        parser.extract_version("module a/b // v2\nrequire a/b \"v1.2.3\" x\n"),
        Some("//".to_string())
    );
    assert_eq!(parser.extract_version("module a/b\nrequire a/b \"v1.2.3\"\n"), Some("v1.2.3".to_string()));
    assert_eq!(parser.extract_version("go 1.21\n"), None);
}

#[test]
fn package_name_defaults_to_main() {
    let parser = GoModuleParser::new();
    assert_eq!(parser.extract_package_name("// no clause\n"), "main");
    assert_eq!(parser.extract_package_name("\n  package   foo  \n"), "foo");
}

const SOURCE: &str = r#"package shapes

import "fmt"

// Area computes things.
func Area(w, h int) int { return w * h }

func Hello() {}

func (c *Circle) Radius() float64 { return 1 }

type Circle struct { r float64 }

type Shape interface { Area() int }

type ID int

const Pi, E = 3.14, 2.71

var Count int
"#;

#[test]
fn symbols_of_a_go_file() {
    let parser = GoModuleParser::new();
    let symbols = parser.parse_go_file_source(SOURCE, &"example.com/shapes".to_string()).unwrap();
    let seen: Vec<(String, SymbolKind)> = symbols.iter().map(|s| (s.name.clone(), s.kind)).collect();
    assert_eq!(
        seen,
        vec![
            ("Area".to_string(), SymbolKind::Function),
            ("Hello".to_string(), SymbolKind::Function),
            ("Circle.Radius".to_string(), SymbolKind::Method),
            ("Circle".to_string(), SymbolKind::Struct),
            ("Shape".to_string(), SymbolKind::Interface),
            ("ID".to_string(), SymbolKind::Type),
            ("Pi".to_string(), SymbolKind::Const),
            ("Count".to_string(), SymbolKind::Var),
        ]
    );
    assert_eq!(symbols[0].signature, Some("func(w, h int) int".to_string()));
    assert_eq!(symbols[1].signature, Some("func()".to_string()));
    assert_eq!(symbols[0].package, "example.com/shapes");
    assert_eq!(symbols[0].import_path, "example.com/shapes");
    assert_eq!(symbols[0].package_name, "shapes");
    assert_eq!(symbols[0].doc, None);
    assert_eq!(symbols[2].signature, None);
}

#[test]
fn module_from_sources() {
    let parser = GoModuleParser::new();
    let module = parser
        .parse_module_sources(
            "shapes/go.mod",
            "module example.com/shapes\n\ngo 1.22\n",
            vec![
                ("shapes/a.go".to_string(), Some(SOURCE.to_string())),
                ("shapes/broken.go".to_string(), None),
            ],
        )
        .unwrap();
    assert_eq!(module.path, "example.com/shapes");
    assert_eq!(module.manifest, "shapes/go.mod");
    assert_eq!(module.go_version, "1.22");
    assert_eq!(module.version, None);
    assert_eq!(module.symbols.len(), 8);
    assert_eq!(module.files, vec!["shapes/a.go".to_string(), "shapes/broken.go".to_string()]);
    assert!(parser.parse_module_sources("go.mod", "", vec![]).is_err());
}

#[test]
fn which_files_are_indexed() {
    assert!(is_indexed_go_file("proj", "proj/pkg/a.go"));
    assert!(!is_indexed_go_file("proj", "proj/pkg/a_test.go"));
    assert!(!is_indexed_go_file("proj", "proj/vendor/x/a.go"));
    assert!(!is_indexed_go_file("proj", "proj/.git/a.go"));
    assert!(!is_indexed_go_file("proj", "proj/pkg/a.rs"));
    assert!(!is_indexed_go_file("proj", "proj/pkg/go"));
    // Only components below the root count, and only whole components.
    assert!(is_indexed_go_file("/tmp/.tmpX", "/tmp/.tmpX/a.go"));
    assert!(is_indexed_go_file("/tmp/.tmpX/", "/tmp/.tmpX/pkg/a.go"));
    assert!(is_indexed_go_file("a", "a/xvendor/b.go"));
    assert!(is_indexed_go_file(".", "./cmd/main.go"));
    assert!(!is_indexed_go_file(".", "./.cache/main.go"));
    assert!(is_go_mod_file("proj", "proj/go.mod"));
    assert!(!is_go_mod_file("proj", "proj/vendor/m/go.mod"));
    assert!(!is_go_mod_file("proj", "proj/go.sum"));
    assert!(is_go_mod_file("vendor/proj", "vendor/proj/go.mod"));
    assert!(is_go_mod_file("proj", "proj/.hidden/go.mod"));
}

#[test]
fn path_parts() {
    assert_eq!(parent_of("/a/b/go.mod"), "/a/b");
    assert_eq!(parent_of("/go.mod"), "/");
    assert_eq!(parent_of("go.mod"), "");
    assert_eq!(join_path("/a/b", "go.mod"), "/a/b/go.mod");
    assert_eq!(join_path("/", "go.mod"), "/go.mod");
    assert_eq!(join_path("", "go.mod"), "go.mod");
}

#[test]
fn file_events() {
    assert_eq!(
        classify_event(FsEventKind::Create, "/p/go.mod"),
        Some(IndexEvent::ModuleAdded("/p/go.mod".to_string()))
    );
    assert_eq!(
        classify_event(FsEventKind::Modify, "/p/a.go"),
        Some(IndexEvent::FileChanged("/p/a.go".to_string()))
    );
    assert_eq!(classify_event(FsEventKind::Modify, "/p/readme.md"), None);
    assert_eq!(
        classify_event(FsEventKind::Remove, "/p/go.mod"),
        Some(IndexEvent::ModuleRemoved("/p/go.mod".to_string()))
    );
    assert_eq!(
        classify_event(FsEventKind::Remove, "/p/readme.md"),
        Some(IndexEvent::FileRemoved("/p/readme.md".to_string()))
    );
    assert_eq!(classify_event(FsEventKind::Other, "/p/a.go"), None);
}

#[test]
fn event_plans() {
    assert_eq!(
        plan_event(&IndexEvent::FileChanged("/p/q/a.go".to_string())),
        IndexAction::ReparseModule { manifest: "/p/q/go.mod".to_string(), only_if_present: true }
    );
    assert_eq!(
        plan_event(&IndexEvent::ModuleAdded("/p/go.mod".to_string())),
        IndexAction::ReparseModule { manifest: "/p/go.mod".to_string(), only_if_present: false }
    );
    assert_eq!(
        plan_event(&IndexEvent::ModuleRemoved("/p/go.mod".to_string())),
        IndexAction::RemoveManifest("/p/go.mod".to_string())
    );
    assert_eq!(plan_event(&IndexEvent::FileRemoved("x".to_string())), IndexAction::Ignore);
}

#[test]
fn parse_error_messages() {
    assert_eq!(ParseError::NoModulePath.message(), "No module path found in go.mod");
    assert_eq!(ParseError::GoSyntax.message(), "Failed to parse Go file");
}
