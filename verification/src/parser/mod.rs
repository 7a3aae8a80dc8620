//! Go module and source parsing: `go.mod` headers, package clauses and the
//! symbols a Go file declares.

pub mod syntax;

use vstd::prelude::*;
use crate::index::{optional_view, symbol_views, Symbol, SymbolKind, SymbolView};
use crate::parser::syntax::{go_syntax_tree, parse_go_source, SyntaxNode};
use crate::text::{
    chars_of, concat, contains, has_prefix, occurs_in, slice_of, split, split_on, starts_with, string_of,
    strip_both, strip_leading, strip_trailing, stripped_leading, stripped_trailing, trim, trimmed, words,
    words_of,
};

verus! {

/// Why a module or file could not be parsed.
#[derive(Debug, Clone, Copy, PartialEq, Eq, Structural)]
pub enum ParseError {
    /// The `go.mod` file names no module.
    NoModulePath,
    /// The Go parser gave up on a file.
    GoSyntax,
}

/// The sentence that describes an error.
pub open spec fn error_message(e: ParseError) -> Seq<char> {
    match e {
        ParseError::NoModulePath => "No module path found in go.mod"@,
        ParseError::GoSyntax => "Failed to parse Go file"@,
    }
}

impl ParseError {
    /// A sentence describing the error.
    pub fn message(&self) -> (text: &'static str)
        ensures
            text@ == error_message(*self),
    {
        match self {
            ParseError::NoModulePath => "No module path found in go.mod",
            ParseError::GoSyntax => "Failed to parse Go file",
        }
    }
}

/// Whether `s` is the text `lit`.
pub fn is_text(s: &String, lit: &str) -> (same: bool)
    ensures
        same == (s@ == lit@),
{
    let owned = lit.to_owned();
    *s == owned
}

// ---------------------------------------------------------------------------
// go.mod

/// The lines of a text: the pieces between line feeds.
pub open spec fn lines_of(content: Seq<char>) -> Seq<Seq<char>> {
    split(content, '\n')
}

/// The module path and Go version that a series of `go.mod` lines declares:
/// the last `module` line and the last `go` line win; the Go version is
/// `1.21` when no line declares one.
pub open spec fn go_mod_fields(lines: Seq<Seq<char>>) -> (Seq<char>, Seq<char>)
    decreases lines.len(),
{
    if lines.len() == 0 {
        (Seq::empty(), "1.21"@)
    } else {
        let (module, go) = go_mod_fields(lines.drop_last());
        let t = trim(lines.last());
        if starts_with(t, "module "@) {
            (strip_both(trim(t.skip("module "@.len() as int)), '"'), go)
        } else if starts_with(t, "go "@) {
            (module, trim(t.skip("go "@.len() as int)))
        } else {
            (module, go)
        }
    }
}

/// The module path and Go version of a `go.mod` file, or the error when it
/// names no module.
pub open spec fn go_mod_header(content: Seq<char>) -> Result<(Seq<char>, Seq<char>), ParseError> {
    let (module, go) = go_mod_fields(lines_of(content));
    if module.len() == 0 { Err(ParseError::NoModulePath) } else { Ok((module, go)) }
}

/// The version found on the first line that mentions `module` and has at
/// least three words: its third word without quotes.
pub open spec fn version_from_lines(lines: Seq<Seq<char>>, module: Seq<char>) -> Option<Seq<char>>
    decreases lines.len(),
{
    if lines.len() == 0 {
        None
    } else if contains(lines[0], module) && words(lines[0]).len() >= 3 {
        Some(strip_both(words(lines[0])[2], '"'))
    } else {
        version_from_lines(lines.drop_first(), module)
    }
}

/// The version a `go.mod` file gives its own module, if any.
pub open spec fn go_mod_version(content: Seq<char>) -> Option<Seq<char>> {
    match go_mod_header(content) {
        Ok((module, _)) => version_from_lines(lines_of(content), module),
        Err(_) => None,
    }
}

/// The package a series of Go source lines declares: the first line that
/// starts with `package ` after trimming; `main` when there is none.
pub open spec fn package_from_lines(lines: Seq<Seq<char>>) -> Seq<char>
    decreases lines.len(),
{
    if lines.len() == 0 {
        "main"@
    } else {
        let t = trim(lines[0]);
        if starts_with(t, "package "@) {
            trim(t.skip("package "@.len() as int))
        } else {
            package_from_lines(lines.drop_first())
        }
    }
}

/// `s` from position `from` on.
fn rest_of(s: &Vec<char>, from: usize) -> (rest: Vec<char>)
    requires
        from <= s@.len(),
    ensures
        rest@ == s@.skip(from as int),
{
    let rest = slice_of(s, from, s.len());
    assert(rest@ =~= s@.skip(from as int));
    rest
}

/// Parser for Go modules and source files.
pub struct GoModuleParser;

impl GoModuleParser {
    /// A parser.
    pub fn new() -> (parser: GoModuleParser) {
        GoModuleParser
    }

    /// Parses a `go.mod` file into its module path and Go version.
    pub fn parse_go_mod_content(&self, content: &str) -> (header: Result<(String, String), ParseError>)
        ensures
            match (header, go_mod_header(content@)) {
                (Ok((module, go)), Ok((m, g))) => module@ == m && go@ == g,
                (Err(e), Err(f)) => e == f,
                _ => false,
            },
    {
        let text = chars_of(content);
        let lines = split_on(&text, '\n');
        let ghost views = lines@.map_values(|l: Vec<char>| l@);
        let module_word = chars_of("module ");
        let go_word = chars_of("go ");
        let mut module: Vec<char> = Vec::new();
        let mut go = chars_of("1.21");
        let mut i: usize = 0;
        while i < lines.len()
            invariant
                i <= lines@.len(),
                views == lines@.map_values(|l: Vec<char>| l@),
                views == lines_of(content@),
                module_word@ == "module "@,
                go_word@ == "go "@,
                (module@, go@) == go_mod_fields(views.take(i as int)),
            decreases lines.len() - i,
        {
            assert(views.take(i + 1).drop_last() =~= views.take(i as int));
            assert(views.take(i + 1).last() == lines@[i as int]@);
            let t = trimmed(&lines[i]);
            if has_prefix(&t, &module_word) {
                let value = rest_of(&t, module_word.len());
                let value = trimmed(&value);
                let value = stripped_leading(&value, '"');
                module = stripped_trailing(&value, '"');
            } else if has_prefix(&t, &go_word) {
                let value = rest_of(&t, go_word.len());
                go = trimmed(&value);
            }
            i = i + 1;
        }
        assert(views.take(views.len() as int) =~= views);
        if module.len() == 0 {
            Err(ParseError::NoModulePath)
        } else {
            Ok((string_of(module.as_slice()), string_of(go.as_slice())))
        }
    }

    /// The version a `go.mod` file gives its own module, if any.
    pub fn extract_version(&self, content: &str) -> (version: Option<String>)
        ensures
            optional_view(version) == go_mod_version(content@),
    {
        let header = self.parse_go_mod_content(content);
        let module = match header {
            Ok((module, _)) => module,
            Err(_) => {
                return None;
            }
        };
        let module_chars = chars_of(module.as_str());
        let text = chars_of(content);
        let lines = split_on(&text, '\n');
        let ghost views = lines@.map_values(|l: Vec<char>| l@);
        let mut i: usize = 0;
        assert(views.skip(0) =~= views);
        assert(version_from_lines(views, module_chars@) == go_mod_version(content@));
        while i < lines.len()
            invariant
                i <= lines@.len(),
                views == lines@.map_values(|l: Vec<char>| l@),
                version_from_lines(views, module_chars@) == go_mod_version(content@),
                version_from_lines(views, module_chars@) == version_from_lines(views.skip(i as int), module_chars@),
            decreases lines.len() - i,
        {
            assert(views.skip(i as int)[0] == lines@[i as int]@);
            assert(views.skip(i as int).drop_first() =~= views.skip(i + 1));
            if occurs_in(&lines[i], &module_chars) {
                let parts = words_of(&lines[i]);
                let ghost word_views = parts@.map_values(|w: Vec<char>| w@);
                if parts.len() >= 3 {
                    assert(word_views[2] == parts@[2]@);
                    let v = stripped_leading(&parts[2], '"');
                    let v = stripped_trailing(&v, '"');
                    return Some(string_of(v.as_slice()));
                }
            }
            i = i + 1;
        }
        None
    }

    /// The package a Go source file declares, `main` when it declares none.
    pub fn extract_package_name(&self, content: &str) -> (name: String)
        ensures
            name@ == package_from_lines(lines_of(content@)),
    {
        let text = chars_of(content);
        let lines = split_on(&text, '\n');
        let ghost views = lines@.map_values(|l: Vec<char>| l@);
        let package_word = chars_of("package ");
        let mut i: usize = 0;
        assert(views.skip(0) =~= views);
        while i < lines.len()
            invariant
                i <= lines@.len(),
                views == lines@.map_values(|l: Vec<char>| l@),
                views == lines_of(content@),
                package_word@ == "package "@,
                package_from_lines(views) == package_from_lines(views.skip(i as int)),
            decreases lines.len() - i,
        {
            assert(views.skip(i as int)[0] == lines@[i as int]@);
            assert(views.skip(i as int).drop_first() =~= views.skip(i + 1));
            let t = trimmed(&lines[i]);
            if has_prefix(&t, &package_word) {
                let value = rest_of(&t, package_word.len());
                let value = trimmed(&value);
                return string_of(value.as_slice());
            }
            i = i + 1;
        }
        "main".to_owned()
    }
}

// ---------------------------------------------------------------------------
// Symbols of a syntax tree

/// The type a method receiver names: the last word of the receiver text
/// without its parentheses, without leading `*`.
pub open spec fn receiver_type(text: Seq<char>) -> Seq<char> {
    let w = words(strip_trailing(strip_leading(text, '('), ')'));
    if w.len() == 0 { Seq::empty() } else { strip_leading(w.last(), '*') }
}

/// The receiver type of a method declaration, `Unknown` when it has none.
pub open spec fn receiver_name(receiver: Option<Seq<char>>) -> Seq<char> {
    match receiver {
        Some(r) => receiver_type(r),
        None => "Unknown"@,
    }
}

/// The signature shown for a function: `func`, then its parameters and its
/// result separated by a space; `func()` when it has neither.
pub open spec fn signature_text(parameters: Option<Seq<char>>, result: Option<Seq<char>>) -> Seq<char> {
    match (parameters, result) {
        (None, None) => "func()"@,
        (Some(p), None) => "func"@ + p,
        (None, Some(r)) => "func"@ + r,
        (Some(p), Some(r)) => "func"@ + p + " "@ + r,
    }
}

/// The kind of a type declaration by the kind of its type expression.
pub open spec fn type_kind_of(type_kind: Option<Seq<char>>) -> SymbolKind {
    match type_kind {
        Some(k) => if k == "interface_type"@ {
            SymbolKind::Interface
        } else if k == "struct_type"@ {
            SymbolKind::Struct
        } else {
            SymbolKind::Type
        },
        None => SymbolKind::Type,
    }
}

/// A symbol declared in the package `package` of the module `module`.
pub open spec fn declared(
    name: Seq<char>,
    module: Seq<char>,
    package: Seq<char>,
    kind: SymbolKind,
    signature: Option<Seq<char>>,
) -> SymbolView {
    SymbolView {
        name,
        package: module,
        package_name: package,
        kind,
        version: None,
        import_path: module,
        doc: None,
        signature,
    }
}

/// The types named by the `type_spec` children of a type declaration.
pub open spec fn type_spec_symbols(children: Seq<SyntaxNode>, module: Seq<char>, package: Seq<char>) -> Seq<SymbolView>
    decreases children.len(),
{
    if children.len() == 0 {
        Seq::empty()
    } else {
        let rest = type_spec_symbols(children.drop_last(), module, package);
        let c = children.last();
        if c.kind@ == "type_spec"@ && c.name_text.is_some() {
            rest.push(declared(c.name_text.unwrap()@, module, package, type_kind_of(optional_view(c.type_kind)), None))
        } else {
            rest
        }
    }
}

/// The names declared by the `const_spec` and `var_spec` children of a
/// constant or variable declaration, with the kind `kind`.
pub open spec fn value_spec_symbols(
    children: Seq<SyntaxNode>,
    module: Seq<char>,
    package: Seq<char>,
    kind: SymbolKind,
) -> Seq<SymbolView>
    decreases children.len(),
{
    if children.len() == 0 {
        Seq::empty()
    } else {
        let rest = value_spec_symbols(children.drop_last(), module, package, kind);
        let c = children.last();
        if (c.kind@ == "const_spec"@ || c.kind@ == "var_spec"@) && c.name_text.is_some() {
            rest.push(declared(c.name_text.unwrap()@, module, package, kind, None))
        } else {
            rest
        }
    }
}

/// The symbols a node declares itself, not counting its descendants.
pub open spec fn own_symbols(node: SyntaxNode, module: Seq<char>, package: Seq<char>) -> Seq<SymbolView> {
    let k = node.kind@;
    if k == "function_declaration"@ {
        match node.name_text {
            Some(n) => seq![declared(
                n@,
                module,
                package,
                SymbolKind::Function,
                Some(signature_text(optional_view(node.parameters_text), optional_view(node.result_text))),
            )],
            None => Seq::empty(),
        }
    } else if k == "method_declaration"@ {
        match node.name_text {
            Some(n) => seq![declared(
                receiver_name(optional_view(node.receiver_text)) + "."@ + n@,
                module,
                package,
                SymbolKind::Method,
                None,
            )],
            None => Seq::empty(),
        }
    } else if k == "type_declaration"@ {
        type_spec_symbols(node.children@, module, package)
    } else if k == "const_declaration"@ {
        value_spec_symbols(node.children@, module, package, SymbolKind::Const)
    } else if k == "var_declaration"@ {
        value_spec_symbols(node.children@, module, package, SymbolKind::Var)
    } else {
        Seq::empty()
    }
}

/// The symbols declared by a node and its descendants, in pre-order.
pub open spec fn node_symbols(node: SyntaxNode, module: Seq<char>, package: Seq<char>) -> Seq<SymbolView>
    decreases node, 1nat,
{
    own_symbols(node, module, package) + children_symbols(node.children@, module, package)
}

/// The symbols declared by a series of sibling nodes and their descendants.
pub open spec fn children_symbols(children: Seq<SyntaxNode>, module: Seq<char>, package: Seq<char>) -> Seq<SymbolView>
    decreases children, 0nat,
{
    if children.len() == 0 {
        Seq::empty()
    } else {
        children_symbols(children.drop_last(), module, package) + node_symbols(children.last(), module, package)
    }
}

/// A child of a constant or variable declaration that declares a name.
pub open spec fn is_named_value_spec(c: SyntaxNode) -> bool {
    (c.kind@ == "const_spec"@ || c.kind@ == "var_spec"@) && c.name_text.is_some()
}

/// A child of a type declaration that declares a name.
pub open spec fn is_named_type_spec(c: SyntaxNode) -> bool {
    c.kind@ == "type_spec"@ && c.name_text.is_some()
}

/// `symbols` are one symbol of the module per spec child of `specs`, in
/// order, each named as its child.
pub open spec fn declares_each(symbols: Seq<SymbolView>, specs: Seq<SyntaxNode>, module: Seq<char>) -> bool {
    &&& symbols.len() == specs.len()
    &&& forall|k: int| 0 <= k < symbols.len()
        ==> (#[trigger] symbols[k]).name == specs[k].name_text.unwrap()@ && symbols[k].package == module
}

/// The test `is_named_value_spec`.
pub open spec fn named_value_specs() -> spec_fn(SyntaxNode) -> bool {
    |c: SyntaxNode| is_named_value_spec(c)
}

/// The test `is_named_type_spec`.
pub open spec fn named_type_specs() -> spec_fn(SyntaxNode) -> bool {
    |c: SyntaxNode| is_named_type_spec(c)
}

proof fn lemma_value_specs_filter(children: Seq<SyntaxNode>, module: Seq<char>, package: Seq<char>, kind: SymbolKind)
    ensures
        value_spec_symbols(children, module, package, kind).len()
            == children.filter(named_value_specs()).len(),
        declares_each(value_spec_symbols(children, module, package, kind), children.filter(named_value_specs()), module),
        forall|k: int| 0 <= k < value_spec_symbols(children, module, package, kind).len()
            ==> (#[trigger] value_spec_symbols(children, module, package, kind)[k]).kind == kind,
    decreases children.len(),
{
    reveal(Seq::filter);
    if children.len() > 0 {
        let rest = children.drop_last();
        lemma_value_specs_filter(rest, module, package, kind);
        let f = children.filter(named_value_specs());
        let fr = rest.filter(named_value_specs());
        let vs = value_spec_symbols(children, module, package, kind);
        let vr = value_spec_symbols(rest, module, package, kind);
        assert forall|k: int| 0 <= k < vs.len() implies {
            &&& #[trigger] vs[k].name == f[k].name_text.unwrap()@
            &&& vs[k].kind == kind
            &&& vs[k].package == module
        } by {
            if k < vr.len() {
                assert(vs[k] == vr[k]);
                assert(f[k] == fr[k]);
                assert(vr[k].name == fr[k].name_text.unwrap()@);
                assert(vr[k].kind == kind);
            } else {
                let last = children.last();
                assert(is_named_value_spec(last));
                assert(f == fr.push(last));
                assert(vs == vr.push(declared(last.name_text.unwrap()@, module, package, kind, None)));
                assert(f[k] == last);
            }
        }
        assert(declares_each(vs, f, module));
    }
}

proof fn lemma_type_specs_filter(children: Seq<SyntaxNode>, module: Seq<char>, package: Seq<char>)
    ensures
        type_spec_symbols(children, module, package).len()
            == children.filter(named_type_specs()).len(),
        declares_each(type_spec_symbols(children, module, package), children.filter(named_type_specs()), module),
        forall|k: int| 0 <= k < type_spec_symbols(children, module, package).len()
            ==> (#[trigger] type_spec_symbols(children, module, package)[k]).kind
                == type_kind_of(optional_view(children.filter(named_type_specs())[k].type_kind)),
    decreases children.len(),
{
    reveal(Seq::filter);
    if children.len() > 0 {
        let rest = children.drop_last();
        lemma_type_specs_filter(rest, module, package);
        let f = children.filter(named_type_specs());
        let fr = rest.filter(named_type_specs());
        let vs = type_spec_symbols(children, module, package);
        let vr = type_spec_symbols(rest, module, package);
        assert forall|k: int| 0 <= k < vs.len() implies {
            &&& #[trigger] vs[k].name == f[k].name_text.unwrap()@
            &&& vs[k].kind == type_kind_of(optional_view(f[k].type_kind))
            &&& vs[k].package == module
        } by {
            if k < vr.len() {
                assert(vs[k] == vr[k]);
                assert(f[k] == fr[k]);
                assert(vr[k].name == fr[k].name_text.unwrap()@);
            } else {
                let last = children.last();
                assert(is_named_type_spec(last));
                assert(f == fr.push(last));
                assert(f[k] == last);
            }
        }
        assert(declares_each(vs, f, module));
    }
}

/// A constant or variable declaration declares one symbol per child spec
/// that names one, in order: that name, of kind `Const` or `Var`, in the
/// module.
pub proof fn law_value_declaration_symbols(node: SyntaxNode, module: Seq<char>, package: Seq<char>)
    requires
        node.kind@ == "const_declaration"@ || node.kind@ == "var_declaration"@,
    ensures
        own_symbols(node, module, package).len() == node.children@.filter(named_value_specs()).len(),
        forall|k: int| 0 <= k < own_symbols(node, module, package).len() ==> {
            &&& #[trigger] own_symbols(node, module, package)[k].name
                == node.children@.filter(named_value_specs())[k].name_text.unwrap()@
            &&& own_symbols(node, module, package)[k].kind
                == if node.kind@ == "const_declaration"@ { SymbolKind::Const } else { SymbolKind::Var }
            &&& own_symbols(node, module, package)[k].package == module
        },
{
    reveal_strlit("const_declaration");
    reveal_strlit("var_declaration");
    reveal_strlit("function_declaration");
    reveal_strlit("method_declaration");
    reveal_strlit("type_declaration");
    assert("const_declaration"@ != "function_declaration"@) by {
        assert("const_declaration"@[0] != "function_declaration"@[0]);
    }
    assert("var_declaration"@ != "function_declaration"@) by {
        assert("var_declaration"@[0] != "function_declaration"@[0]);
    }
    assert("const_declaration"@ != "method_declaration"@) by {
        assert("const_declaration"@[0] != "method_declaration"@[0]);
    }
    assert("var_declaration"@ != "method_declaration"@) by {
        assert("var_declaration"@[0] != "method_declaration"@[0]);
    }
    assert("const_declaration"@ != "type_declaration"@) by {
        assert("const_declaration"@[0] != "type_declaration"@[0]);
    }
    assert("var_declaration"@ != "type_declaration"@) by {
        assert("var_declaration"@[0] != "type_declaration"@[0]);
    }
    assert("const_declaration"@ != "var_declaration"@) by {
        assert("const_declaration"@[0] != "var_declaration"@[0]);
    }
    if node.kind@ == "const_declaration"@ {
        lemma_value_specs_filter(node.children@, module, package, SymbolKind::Const);
    } else {
        lemma_value_specs_filter(node.children@, module, package, SymbolKind::Var);
    }
}

/// A named function declaration declares one symbol: the function, of kind
/// `Function`, with its signature.
pub proof fn law_function_declaration_symbol(node: SyntaxNode, module: Seq<char>, package: Seq<char>)
    requires
        node.kind@ == "function_declaration"@,
        node.name_text.is_some(),
    ensures
        own_symbols(node, module, package).len() == 1,
        own_symbols(node, module, package)[0].name == node.name_text.unwrap()@,
        own_symbols(node, module, package)[0].kind == SymbolKind::Function,
        own_symbols(node, module, package)[0].package == module,
        own_symbols(node, module, package)[0].signature
            == Some(signature_text(optional_view(node.parameters_text), optional_view(node.result_text))),
{
}

/// A named method declaration declares one symbol, named by its receiver's
/// type, a dot and its name, of kind `Method`.
pub proof fn law_method_declaration_symbol(node: SyntaxNode, module: Seq<char>, package: Seq<char>)
    requires
        node.kind@ == "method_declaration"@,
        node.name_text.is_some(),
    ensures
        own_symbols(node, module, package).len() == 1,
        own_symbols(node, module, package)[0].name
            == receiver_name(optional_view(node.receiver_text)) + "."@ + node.name_text.unwrap()@,
        own_symbols(node, module, package)[0].kind == SymbolKind::Method,
        own_symbols(node, module, package)[0].package == module,
{
    reveal_strlit("function_declaration");
    reveal_strlit("method_declaration");
    assert("method_declaration"@ != "function_declaration"@) by {
        assert("method_declaration"@[0] != "function_declaration"@[0]);
    }
}

/// A type declaration declares one symbol per `type_spec` child that names
/// one, in order: that name, of the kind its type expression gives.
pub proof fn law_type_declaration_symbols(node: SyntaxNode, module: Seq<char>, package: Seq<char>)
    requires
        node.kind@ == "type_declaration"@,
    ensures
        own_symbols(node, module, package).len() == node.children@.filter(named_type_specs()).len(),
        forall|k: int| 0 <= k < own_symbols(node, module, package).len() ==> {
            &&& #[trigger] own_symbols(node, module, package)[k].name
                == node.children@.filter(named_type_specs())[k].name_text.unwrap()@
            &&& own_symbols(node, module, package)[k].kind
                == type_kind_of(optional_view(node.children@.filter(named_type_specs())[k].type_kind))
            &&& own_symbols(node, module, package)[k].package == module
        },
{
    reveal_strlit("function_declaration");
    reveal_strlit("method_declaration");
    reveal_strlit("type_declaration");
    assert("type_declaration"@ != "function_declaration"@) by {
        assert("type_declaration"@[0] != "function_declaration"@[0]);
    }
    assert("type_declaration"@ != "method_declaration"@) by {
        assert("type_declaration"@[0] != "method_declaration"@[0]);
    }
    lemma_type_specs_filter(node.children@, module, package);
}

/// Every symbol in `s` belongs to the module `module`.
pub open spec fn all_in_module(s: Seq<SymbolView>, module: Seq<char>) -> bool {
    forall|k: int| 0 <= k < s.len() ==> (#[trigger] s[k]).package == module
}

proof fn lemma_concat_in_module(a: Seq<SymbolView>, b: Seq<SymbolView>, module: Seq<char>)
    requires
        all_in_module(a, module),
        all_in_module(b, module),
    ensures
        all_in_module(a + b, module),
{
    assert forall|k: int| 0 <= k < (a + b).len() implies (#[trigger] (a + b)[k]).package == module by {
        if k < a.len() {
            assert((a + b)[k] == a[k]);
        } else {
            assert((a + b)[k] == b[k - a.len()]);
        }
    }
}

proof fn lemma_type_specs_in_module(children: Seq<SyntaxNode>, module: Seq<char>, package: Seq<char>)
    ensures
        all_in_module(type_spec_symbols(children, module, package), module),
    decreases children.len(),
{
    if children.len() > 0 {
        lemma_type_specs_in_module(children.drop_last(), module, package);
    }
}

proof fn lemma_value_specs_in_module(children: Seq<SyntaxNode>, module: Seq<char>, package: Seq<char>, kind: SymbolKind)
    ensures
        all_in_module(value_spec_symbols(children, module, package, kind), module),
    decreases children.len(),
{
    if children.len() > 0 {
        lemma_value_specs_in_module(children.drop_last(), module, package, kind);
    }
}

/// Every symbol a node and its descendants declare belongs to the module.
pub proof fn lemma_node_symbols_in_module(node: SyntaxNode, module: Seq<char>, package: Seq<char>)
    ensures
        all_in_module(node_symbols(node, module, package), module),
    decreases node, 1nat,
{
    lemma_type_specs_in_module(node.children@, module, package);
    lemma_value_specs_in_module(node.children@, module, package, SymbolKind::Const);
    lemma_value_specs_in_module(node.children@, module, package, SymbolKind::Var);
    assert(all_in_module(own_symbols(node, module, package), module));
    lemma_children_symbols_in_module(node.children@, module, package);
    lemma_concat_in_module(own_symbols(node, module, package), children_symbols(node.children@, module, package), module);
}

/// Every symbol a series of nodes and their descendants declare belongs to
/// the module.
pub proof fn lemma_children_symbols_in_module(children: Seq<SyntaxNode>, module: Seq<char>, package: Seq<char>)
    ensures
        all_in_module(children_symbols(children, module, package), module),
    decreases children, 0nat,
{
    if children.len() > 0 {
        lemma_children_symbols_in_module(children.drop_last(), module, package);
        lemma_node_symbols_in_module(children.last(), module, package);
        lemma_concat_in_module(
            children_symbols(children.drop_last(), module, package),
            node_symbols(children.last(), module, package),
            module,
        );
    }
}

/// The type a method receiver names.
pub fn receiver_type_of(text: &String) -> (name: Vec<char>)
    ensures
        name@ == receiver_type(text@),
{
    let t = chars_of(text.as_str());
    let t = stripped_leading(&t, '(');
    let t = stripped_trailing(&t, ')');
    let w = words_of(&t);
    let ghost views = w@.map_values(|x: Vec<char>| x@);
    if w.len() == 0 {
        Vec::new()
    } else {
        assert(views.last() == w@[w@.len() - 1]@);
        stripped_leading(&w[w.len() - 1], '*')
    }
}

/// The signature shown for a function.
pub fn signature_of(parameters: &Option<String>, result: &Option<String>) -> (signature: String)
    ensures
        signature@ == signature_text(optional_view(*parameters), optional_view(*result)),
{
    let func = chars_of("func");
    match (parameters, result) {
        (None, None) => "func()".to_owned(),
        (Some(p), None) => string_of(concat(&func, &chars_of(p.as_str())).as_slice()),
        (None, Some(r)) => string_of(concat(&func, &chars_of(r.as_str())).as_slice()),
        (Some(p), Some(r)) => {
            let head = concat(&func, &chars_of(p.as_str()));
            let head = concat(&head, &chars_of(" "));
            string_of(concat(&head, &chars_of(r.as_str())).as_slice())
        },
    }
}

/// The kind of a type declaration by the kind of its type expression.
pub fn type_kind_from(type_kind: &Option<String>) -> (kind: SymbolKind)
    ensures
        kind == type_kind_of(optional_view(*type_kind)),
{
    match type_kind {
        Some(k) => if is_text(k, "interface_type") {
            SymbolKind::Interface
        } else if is_text(k, "struct_type") {
            SymbolKind::Struct
        } else {
            SymbolKind::Type
        },
        None => SymbolKind::Type,
    }
}

/// A symbol declared in the package `package` of the module `module`.
fn declared_symbol(name: String, module: &String, package: &String, kind: SymbolKind, signature: Option<String>) -> (s: Symbol)
    ensures
        s@ == declared(name@, module@, package@, kind, optional_view(signature)),
{
    Symbol {
        name,
        package: module.clone(),
        package_name: package.clone(),
        kind,
        version: None,
        import_path: module.clone(),
        doc: None,
        signature,
    }
}

/// Appends the symbols a node declares itself.
fn push_own_symbols(node: &SyntaxNode, module: &String, package: &String, out: &mut Vec<Symbol>)
    ensures
        symbol_views(final(out)@) == symbol_views(old(out)@) + own_symbols(*node, module@, package@),
{
    let ghost start = symbol_views(out@);
    if is_text(&node.kind, "function_declaration") {
        match &node.name_text {
            Some(n) => {
                let signature = signature_of(&node.parameters_text, &node.result_text);
                out.push(declared_symbol(n.clone(), module, package, SymbolKind::Function, Some(signature)));
            },
            None => {},
        }
    } else if is_text(&node.kind, "method_declaration") {
        match &node.name_text {
            Some(n) => {
                let receiver = match &node.receiver_text {
                    Some(r) => receiver_type_of(r),
                    None => chars_of("Unknown"),
                };
                let full = concat(&receiver, &chars_of("."));
                let full = concat(&full, &chars_of(n.as_str()));
                out.push(declared_symbol(string_of(full.as_slice()), module, package, SymbolKind::Method, None));
            },
            None => {},
        }
    } else if is_text(&node.kind, "type_declaration") {
        let mut i: usize = 0;
        while i < node.children.len()
            invariant
                i <= node.children@.len(),
                symbol_views(out@) == start + type_spec_symbols(node.children@.take(i as int), module@, package@),
            decreases node.children.len() - i,
        {
            assert(node.children@.take(i + 1).drop_last() =~= node.children@.take(i as int));
            assert(node.children@.take(i + 1).last() == node.children@[i as int]);
            let ghost before = symbol_views(out@);
            let c = &node.children[i];
            if is_text(&c.kind, "type_spec") {
                match &c.name_text {
                    Some(n) => {
                        let kind = type_kind_from(&c.type_kind);
                        let sym = declared_symbol(n.clone(), module, package, kind, None);
                        out.push(sym);
                        assert(symbol_views(out@) =~= before.push(sym@));
                        assert(type_spec_symbols(node.children@.take(i + 1), module@, package@) == type_spec_symbols(node.children@.take(i as int), module@, package@).push(sym@));
                    },
                    None => {
                        assert(type_spec_symbols(node.children@.take(i + 1), module@, package@) == type_spec_symbols(node.children@.take(i as int), module@, package@));
                    },
                }
            } else {
                assert(type_spec_symbols(node.children@.take(i + 1), module@, package@) == type_spec_symbols(node.children@.take(i as int), module@, package@));
            }
            assert(symbol_views(out@) =~= start + type_spec_symbols(node.children@.take(i + 1), module@, package@));
            i = i + 1;
        }
        assert(node.children@.take(node.children@.len() as int) =~= node.children@);
    } else if is_text(&node.kind, "const_declaration") || is_text(&node.kind, "var_declaration") {
        let kind = if is_text(&node.kind, "const_declaration") { SymbolKind::Const } else { SymbolKind::Var };
        let mut i: usize = 0;
        while i < node.children.len()
            invariant
                i <= node.children@.len(),
                symbol_views(out@) == start + value_spec_symbols(node.children@.take(i as int), module@, package@, kind),
            decreases node.children.len() - i,
        {
            assert(node.children@.take(i + 1).drop_last() =~= node.children@.take(i as int));
            assert(node.children@.take(i + 1).last() == node.children@[i as int]);
            let ghost before = symbol_views(out@);
            let c = &node.children[i];
            if is_text(&c.kind, "const_spec") || is_text(&c.kind, "var_spec") {
                match &c.name_text {
                    Some(n) => {
                        let sym = declared_symbol(n.clone(), module, package, kind, None);
                        out.push(sym);
                        assert(symbol_views(out@) =~= before.push(sym@));
                        assert(value_spec_symbols(node.children@.take(i + 1), module@, package@, kind) == value_spec_symbols(node.children@.take(i as int), module@, package@, kind).push(sym@));
                    },
                    None => {
                        assert(value_spec_symbols(node.children@.take(i + 1), module@, package@, kind) == value_spec_symbols(node.children@.take(i as int), module@, package@, kind));
                    },
                }
            } else {
                assert(value_spec_symbols(node.children@.take(i + 1), module@, package@, kind) == value_spec_symbols(node.children@.take(i as int), module@, package@, kind));
            }
            assert(symbol_views(out@) =~= start + value_spec_symbols(node.children@.take(i + 1), module@, package@, kind));
            i = i + 1;
        }
        assert(node.children@.take(node.children@.len() as int) =~= node.children@);
    }
    assert(symbol_views(out@) =~= start + own_symbols(*node, module@, package@));
}

/// Appends the symbols a node and its descendants declare, in pre-order.
fn push_node_symbols(node: &SyntaxNode, module: &String, package: &String, out: &mut Vec<Symbol>)
    ensures
        symbol_views(final(out)@) == symbol_views(old(out)@) + node_symbols(*node, module@, package@),
    decreases node,
{
    let ghost start = symbol_views(out@);
    push_own_symbols(node, module, package, out);
    let ghost mid = symbol_views(out@);
    let mut i: usize = 0;
    while i < node.children.len()
        invariant
            i <= node.children@.len(),
            symbol_views(out@) == mid + children_symbols(node.children@.take(i as int), module@, package@),
        decreases node.children.len() - i,
    {
        assert(node.children@.take(i + 1).drop_last() =~= node.children@.take(i as int));
        assert(node.children@.take(i + 1).last() == node.children@[i as int]);
        push_node_symbols(&node.children[i], module, package, out);
        i = i + 1;
    }
    assert(node.children@.take(node.children@.len() as int) =~= node.children@);
}

/// The symbols declared by a syntax tree of a file of the package
/// `package` in the module `module`, in pre-order.
pub fn extract_symbols(tree: &SyntaxNode, module: &String, package: &String) -> (symbols: Vec<Symbol>)
    ensures
        symbol_views(symbols@) == node_symbols(*tree, module@, package@),
{
    let mut symbols: Vec<Symbol> = Vec::new();
    push_node_symbols(tree, module, package, &mut symbols);
    assert(symbol_views(Seq::<Symbol>::empty()) =~= Seq::empty());
    symbols
}

// ---------------------------------------------------------------------------
// Files and modules

/// Parsed Go module information.
#[derive(Debug)]
pub struct ParsedModule {
    pub path: String,
    /// The `go.mod` file the module was read from.
    pub manifest: String,
    pub version: Option<String>,
    pub go_version: String,
    pub symbols: Vec<Symbol>,
    pub files: Vec<String>,
}

/// The symbols of a Go file of the module `module`, nothing when the Go
/// parser gives up on it.
pub open spec fn file_symbols(content: Seq<char>, module: Seq<char>) -> Seq<SymbolView> {
    match go_syntax_tree(content) {
        Some(tree) => node_symbols(tree, module, package_from_lines(lines_of(content))),
        None => Seq::empty(),
    }
}

/// The symbols of the readable files of a module, file by file.
pub open spec fn module_symbols(files: Seq<(String, Option<String>)>, module: Seq<char>) -> Seq<SymbolView>
    decreases files.len(),
{
    if files.len() == 0 {
        Seq::empty()
    } else {
        module_symbols(files.drop_last(), module) + match files.last().1 {
            Some(content) => file_symbols(content@, module),
            None => Seq::empty(),
        }
    }
}

/// Every symbol of a module's files belongs to the module.
pub proof fn lemma_module_symbols_in_module(files: Seq<(String, Option<String>)>, module: Seq<char>)
    ensures
        all_in_module(module_symbols(files, module), module),
    decreases files.len(),
{
    if files.len() > 0 {
        lemma_module_symbols_in_module(files.drop_last(), module);
        let last = match files.last().1 {
            Some(content) => file_symbols(content@, module),
            None => Seq::empty(),
        };
        match files.last().1 {
            Some(content) => {
                match go_syntax_tree(content@) {
                    Some(tree) => lemma_node_symbols_in_module(tree, module, package_from_lines(lines_of(content@))),
                    None => {},
                }
            },
            None => {},
        }
        lemma_concat_in_module(module_symbols(files.drop_last(), module), last, module);
    }
}

/// The paths of a module's files.
pub open spec fn file_paths(files: Seq<(String, Option<String>)>) -> Seq<Seq<char>> {
    files.map_values(|f: (String, Option<String>)| f.0@)
}

impl GoModuleParser {
    /// Parses a Go file of the module `module` into the symbols it
    /// declares, in pre-order of its syntax tree.
    pub fn parse_go_file_source(&self, content: &str, module: &String) -> (parsed: Result<Vec<Symbol>, ParseError>)
        ensures
            match go_syntax_tree(content@) {
                Some(tree) => parsed.is_ok() && symbol_views(parsed.unwrap()@)
                    == node_symbols(tree, module@, package_from_lines(lines_of(content@))),
                None => parsed == Err::<Vec<Symbol>, ParseError>(ParseError::GoSyntax),
            },
    {
        let package = self.extract_package_name(content);
        match parse_go_source(content) {
            Some(tree) => Ok(extract_symbols(&tree, module, &package)),
            None => Err(ParseError::GoSyntax),
        }
    }

    /// Parses a module from the path and text of its `go.mod` file and its
    /// Go files, each given by its path and its text (`None` for a file that
    /// could not be read). Files that cannot be read or parsed contribute no
    /// symbols.
    pub fn parse_module_sources(
        &self,
        manifest: &str,
        go_mod_content: &str,
        files: Vec<(String, Option<String>)>,
    ) -> (parsed: Result<ParsedModule, ParseError>)
        ensures
            match (parsed, go_mod_header(go_mod_content@)) {
                (Ok(module), Ok((path, go))) => {
                    &&& module.path@ == path
                    &&& module.manifest@ == manifest@
                    &&& module.go_version@ == go
                    &&& optional_view(module.version) == go_mod_version(go_mod_content@)
                    &&& symbol_views(module.symbols@) == module_symbols(files@, path)
                    &&& crate::index::tables::string_views(module.files@) == file_paths(files@)
                },
                (Err(e), Err(f)) => e == f,
                _ => false,
            },
    {
        let (module, go_version) = match self.parse_go_mod_content(go_mod_content) {
            Ok(header) => header,
            Err(e) => {
                return Err(e);
            },
        };
        let mut symbols: Vec<Symbol> = Vec::new();
        let mut paths: Vec<String> = Vec::new();
        let mut i: usize = 0;
        while i < files.len()
            invariant
                i <= files@.len(),
                symbol_views(symbols@) == module_symbols(files@.take(i as int), module@),
                crate::index::tables::string_views(paths@) == file_paths(files@.take(i as int)),
            decreases files.len() - i,
        {
            assert(files@.take(i + 1).drop_last() =~= files@.take(i as int));
            assert(files@.take(i + 1).last() == files@[i as int]);
            let ghost before = symbol_views(symbols@);
            match &files[i].1 {
                Some(content) => {
                    match self.parse_go_file_source(content.as_str(), &module) {
                        Ok(found) => {
                            let mut j: usize = 0;
                            while j < found.len()
                                invariant
                                    j <= found@.len(),
                                    symbol_views(symbols@) == before + symbol_views(found@.take(j as int)),
                                decreases found.len() - j,
                            {
                                let ghost prev = symbol_views(symbols@);
                                let x = found[j].copy();
                                symbols.push(x);
                                assert(symbol_views(symbols@) =~= prev.push(x@));
                                assert(symbol_views(found@.take(j + 1)) =~= symbol_views(found@.take(j as int)).push(found@[j as int]@));
                                j = j + 1;
                            }
                            assert(found@.take(found@.len() as int) =~= found@);
                        },
                        Err(_) => {
                            assert(file_symbols(content@, module@) =~= Seq::empty());
                        },
                    }
                },
                None => {},
            }
            assert(symbol_views(symbols@) =~= module_symbols(files@.take(i + 1), module@));
            let ghost prev_paths = crate::index::tables::string_views(paths@);
            let path = files[i].0.clone();
            paths.push(path);
            assert(crate::index::tables::string_views(paths@) =~= prev_paths.push(path@));
            assert(file_paths(files@.take(i + 1)) =~= file_paths(files@.take(i as int)).push(files@[i as int].0@));
            i = i + 1;
        }
        assert(files@.take(files@.len() as int) =~= files@);
        Ok(ParsedModule {
            path: module,
            manifest: manifest.to_owned(),
            version: self.extract_version(go_mod_content),
            go_version,
            symbols,
            files: paths,
        })
    }
}

} // verus!
