//! The inverted symbol index: from a symbol's name to every symbol of that
//! name, from a package path to the symbols it declares, and from a first
//! character to the names that start with it.

pub mod builder;
pub mod laws;
pub mod query;
pub mod similarity;
pub mod tables;

use vstd::prelude::*;
use dashmap::DashMap;
use crate::index::tables::{
    module_records, module_records_entries, module_records_insert, module_records_len,
    module_records_remove, new_module_records, new_prefix_lists, new_symbol_lists,
    prefix_lists, prefix_lists_get, prefix_lists_insert, prefix_lists_remove, string_views, symbol_lists,
    symbol_lists_get, symbol_lists_insert, symbol_lists_is_empty, symbol_lists_keys,
    symbol_lists_len, symbol_lists_remove,
};
use crate::text::{chars_of, concat, decimal, decimal_of, string_of};

verus! {

/// What kind of Go declaration a symbol comes from.
#[derive(Debug, Clone, Copy, PartialEq, Eq, Structural)]
pub enum SymbolKind {
    Function,
    Type,
    Interface,
    Struct,
    Const,
    Var,
    Method,
}

/// The word under which a kind is shown.
pub open spec fn kind_label(kind: SymbolKind) -> Seq<char> {
    match kind {
        SymbolKind::Function => "func"@,
        SymbolKind::Type => "type"@,
        SymbolKind::Interface => "interface"@,
        SymbolKind::Struct => "struct"@,
        SymbolKind::Const => "const"@,
        SymbolKind::Var => "var"@,
        SymbolKind::Method => "method"@,
    }
}

impl SymbolKind {
    /// The word under which this kind is shown, such as `func`.
    pub fn label(&self) -> (word: &'static str)
        ensures
            word@ == kind_label(*self),
    {
        match self {
            SymbolKind::Function => "func",
            SymbolKind::Type => "type",
            SymbolKind::Interface => "interface",
            SymbolKind::Struct => "struct",
            SymbolKind::Const => "const",
            SymbolKind::Var => "var",
            SymbolKind::Method => "method",
        }
    }
}

/// A symbol of the Go ecosystem (function, type, constant, ...).
#[derive(Debug, Clone)]
pub struct Symbol {
    /// Symbol name, such as `NewClient`.
    pub name: String,
    /// Package path, such as `github.com/redis/go-redis/v9`.
    pub package: String,
    /// Package name, such as `redis`.
    pub package_name: String,
    /// What was declared.
    pub kind: SymbolKind,
    /// Module version, such as `v9.5.1`.
    pub version: Option<String>,
    /// Import path.
    pub import_path: String,
    /// Documentation snippet.
    pub doc: Option<String>,
    /// Signature of a function.
    pub signature: Option<String>,
}

/// A symbol with its texts as character sequences.
pub struct SymbolView {
    pub name: Seq<char>,
    pub package: Seq<char>,
    pub package_name: Seq<char>,
    pub kind: SymbolKind,
    pub version: Option<Seq<char>>,
    pub import_path: Seq<char>,
    pub doc: Option<Seq<char>>,
    pub signature: Option<Seq<char>>,
}

/// The characters of an optional string.
pub open spec fn optional_view(text: Option<String>) -> Option<Seq<char>> {
    match text {
        Some(t) => Some(t@),
        None => None,
    }
}

impl View for Symbol {
    type V = SymbolView;

    open spec fn view(&self) -> SymbolView {
        SymbolView {
            name: self.name@,
            package: self.package@,
            package_name: self.package_name@,
            kind: self.kind,
            version: optional_view(self.version),
            import_path: self.import_path@,
            doc: optional_view(self.doc),
            signature: optional_view(self.signature),
        }
    }
}

/// The views of a list of symbols.
pub open spec fn symbol_views(s: Seq<Symbol>) -> Seq<SymbolView> {
    s.map_values(|t: Symbol| t@)
}

/// A copy of an optional string.
pub fn copy_optional(text: &Option<String>) -> (copy: Option<String>)
    ensures
        copy == *text,
{
    match text {
        Some(t) => Some(t.clone()),
        None => None,
    }
}

impl Symbol {
    /// A copy of this symbol.
    pub fn copy(&self) -> (copy: Symbol)
        ensures
            copy == *self,
    {
        Symbol {
            name: self.name.clone(),
            package: self.package.clone(),
            package_name: self.package_name.clone(),
            kind: self.kind,
            version: copy_optional(&self.version),
            import_path: self.import_path.clone(),
            doc: copy_optional(&self.doc),
            signature: copy_optional(&self.signature),
        }
    }
}

/// Metadata of an indexed module.
#[derive(Debug, Clone)]
pub struct ModuleInfo {
    pub path: String,
    pub version: String,
    pub go_version: String,
    pub symbol_count: usize,
    /// The `go.mod` file the module was read from.
    pub manifest: String,
}

impl ModuleInfo {
    /// A copy of this record.
    pub fn copy(&self) -> (copy: ModuleInfo)
        ensures
            copy == *self,
    {
        ModuleInfo {
            path: self.path.clone(),
            version: self.version.clone(),
            go_version: self.go_version.clone(),
            symbol_count: self.symbol_count,
            manifest: self.manifest.clone(),
        }
    }
}

/// Counts over the index.
#[derive(Debug, Clone, Copy)]
pub struct IndexStats {
    /// Number of symbols (`usize::MAX` when there are more).
    pub total_symbols: usize,
    /// Number of packages.
    pub total_packages: usize,
    /// Number of modules.
    pub total_modules: usize,
}

/// How counts are shown, such as `Symbols: 12 | Packages: 3 | Modules: 1`.
pub open spec fn stats_text(stats: IndexStats) -> Seq<char> {
    "Symbols: "@ + decimal(stats.total_symbols as nat) + " | Packages: "@ + decimal(stats.total_packages as nat)
        + " | Modules: "@ + decimal(stats.total_modules as nat)
}

impl IndexStats {
    /// The counts as one line of text.
    pub fn summary(&self) -> (text: String)
        ensures
            text@ == stats_text(*self),
    {
        let mut t = chars_of("Symbols: ");
        t = concat(&t, &decimal_of(self.total_symbols));
        t = concat(&t, &chars_of(" | Packages: "));
        t = concat(&t, &decimal_of(self.total_packages));
        t = concat(&t, &chars_of(" | Modules: "));
        t = concat(&t, &decimal_of(self.total_modules));
        string_of(t.as_slice())
    }
}

// ---------------------------------------------------------------------------
// The model of the index

/// What the index holds.
pub struct IndexView {
    /// name -> symbols of that name, in insertion order
    pub names: Map<Seq<char>, Seq<Symbol>>,
    /// package path -> symbols of that package, in insertion order
    pub packages: Map<Seq<char>, Seq<Symbol>>,
    /// first character -> names starting with it, in insertion order
    pub prefixes: Map<char, Seq<Seq<char>>>,
    /// module path -> module record
    pub modules: Map<Seq<char>, ModuleInfo>,
}

/// The number of symbols the lists of the names of `order` hold together.
pub open spec fn count_in_order(names: Map<Seq<char>, Seq<Symbol>>, order: Seq<Seq<char>>) -> nat
    decreases order.len(),
{
    if order.len() == 0 {
        0
    } else {
        count_in_order(names, order.drop_last()) + list_at(names, order.last()).len()
    }
}

/// Adds the length of the list of a name to a count.
pub open spec fn add_list_len(names: Map<Seq<char>, Seq<Symbol>>) -> spec_fn(nat, Seq<char>) -> nat {
    |acc: nat, n: Seq<char>| acc + list_at(names, n).len()
}

/// The number of symbols in the name lists: their lengths added up.
pub open spec fn symbol_count(names: Map<Seq<char>, Seq<Symbol>>) -> nat {
    names.dom().fold(0nat, add_list_len(names))
}

/// `n` capped at `usize::MAX`.
pub open spec fn capped(n: nat) -> nat {
    if n <= usize::MAX { n } else { usize::MAX as nat }
}

/// Adding up the list lengths in any order that lists each name once gives
/// the number of symbols of those names.
pub proof fn lemma_count_in_order(names: Map<Seq<char>, Seq<Symbol>>, order: Seq<Seq<char>>)
    requires
        order.no_duplicates(),
    ensures
        count_in_order(names, order) == order.to_set().fold(0nat, add_list_len(names)),
    decreases order.len(),
{
    let f = add_list_len(names);
    assert(vstd::set::fold::is_fun_commutative(f)) by {
        assert forall|a1: Seq<char>, a2: Seq<char>, b: nat| #[trigger] f(f(b, a2), a1) == f(f(b, a1), a2) by {}
    }
    if order.len() == 0 {
        assert(order.to_set() =~= Set::<Seq<char>>::empty());
        vstd::set::fold::lemma_fold_empty(0nat, f);
    } else {
        let rest = order.drop_last();
        assert(rest.no_duplicates()) by {
            assert forall|a: int, b: int| 0 <= a < rest.len() && 0 <= b < rest.len() && a != b implies rest[a] != rest[b] by {
                assert(rest[a] == order[a] && rest[b] == order[b]);
            }
        }
        lemma_count_in_order(names, rest);
        assert(order.to_set() =~= rest.to_set().insert(order.last())) by {
            assert forall|x: Seq<char>| order.to_set().contains(x) == rest.to_set().insert(order.last()).contains(x) by {
                if order.contains(x) && x != order.last() {
                    let j = choose|j: int| 0 <= j < order.len() && order[j] == x;
                    assert(j != order.len() - 1);
                    assert(rest[j] == x);
                }
                if rest.contains(x) {
                    let j = choose|j: int| 0 <= j < rest.len() && rest[j] == x;
                    assert(order[j] == x);
                }
                if x == order.last() {
                    assert(order[order.len() - 1] == x);
                }
            }
        }
        assert(!rest.to_set().contains(order.last())) by {
            if rest.contains(order.last()) {
                let j = choose|j: int| 0 <= j < rest.len() && rest[j] == order.last();
                assert(order[j] == order[order.len() - 1]);
            }
        }
        vstd::seq_lib::seq_to_set_is_finite(rest);
        vstd::set::fold::lemma_fold_insert(rest.to_set(), 0nat, f, order.last());
    }
}

/// The list stored under `key`, or nothing.
pub open spec fn list_at<K>(m: Map<K, Seq<Symbol>>, key: K) -> Seq<Symbol> {
    if m.contains_key(key) { m[key] } else { Seq::empty() }
}

/// `m` with `s` appended to the list under `key`.
pub open spec fn appended(m: Map<Seq<char>, Seq<Symbol>>, key: Seq<char>, s: Symbol) -> Map<Seq<char>, Seq<Symbol>> {
    m.insert(key, list_at(m, key).push(s))
}

/// `m` with `name` listed under its first character, unless it is listed there.
pub open spec fn prefix_added(m: Map<char, Seq<Seq<char>>>, name: Seq<char>) -> Map<char, Seq<Seq<char>>> {
    if name.len() == 0 {
        m
    } else {
        let listed = if m.contains_key(name[0]) { m[name[0]] } else { Seq::empty() };
        if listed.contains(name) { m } else { m.insert(name[0], listed.push(name)) }
    }
}

/// The symbols of `s` whose package is not `package`, in order.
pub open spec fn without_package(s: Seq<Symbol>, package: Seq<char>) -> Seq<Symbol>
    decreases s.len(),
{
    if s.len() == 0 {
        s
    } else {
        let rest = without_package(s.drop_last(), package);
        if s.last().package@ == package { rest } else { rest.push(s.last()) }
    }
}

/// `names` with every symbol of `package` dropped, and with the names left
/// without symbols dropped.
pub open spec fn purged(names: Map<Seq<char>, Seq<Symbol>>, package: Seq<char>) -> Map<Seq<char>, Seq<Symbol>> {
    Map::new(
        |n: Seq<char>| names.contains_key(n) && without_package(names[n], package).len() > 0,
        |n: Seq<char>| without_package(names[n], package),
    )
}

/// How many times `t` occurs in `s`.
pub open spec fn occurrences(s: Seq<Symbol>, t: Symbol) -> nat
    decreases s.len(),
{
    if s.len() == 0 {
        0
    } else {
        occurrences(s.drop_last(), t) + if s.last() == t { 1nat } else { 0nat }
    }
}

/// `t` occurs in the list of its package as often as in the list of its
/// name.
pub open spec fn same_occurrences(v: IndexView, t: Symbol) -> bool {
    occurrences(list_at(v.packages, t.package@), t) == occurrences(list_at(v.names, t.name@), t)
}

/// Counting after one more symbol.
pub proof fn lemma_occurrences_push(s: Seq<Symbol>, x: Symbol, t: Symbol)
    ensures
        occurrences(s.push(x), t) == occurrences(s, t) + if x == t { 1nat } else { 0nat },
{
    assert(s.push(x).drop_last() =~= s);
}

/// Dropping a package drops the occurrences of its symbols and keeps the
/// others.
pub proof fn lemma_occurrences_without(s: Seq<Symbol>, package: Seq<char>, t: Symbol)
    ensures
        occurrences(without_package(s, package), t) == if t.package@ == package { 0 } else { occurrences(s, t) },
    decreases s.len(),
{
    if s.len() > 0 {
        lemma_occurrences_without(s.drop_last(), package, t);
        let rest = without_package(s.drop_last(), package);
        if s.last().package@ != package {
            lemma_occurrences_push(rest, s.last(), t);
        }
    }
}

/// `s` is among the symbols of its name in `names`.
pub open spec fn listed_by_name(names: Map<Seq<char>, Seq<Symbol>>, s: Symbol) -> bool {
    names.contains_key(s.name@) && names[s.name@].contains(s)
}

/// Some symbol of `s.package` in `packages` carries the name of `s`.
pub open spec fn listed_in_package(packages: Map<Seq<char>, Seq<Symbol>>, s: Symbol) -> bool {
    &&& packages.contains_key(s.package@)
    &&& exists|j: int| 0 <= j < packages[s.package@].len() && #[trigger] packages[s.package@][j].name@ == s.name@
}

impl IndexView {
    /// The index after inserting `s`.
    pub open spec fn inserted(self, s: Symbol) -> IndexView {
        IndexView {
            names: appended(self.names, s.name@, s),
            packages: appended(self.packages, s.package@, s),
            prefixes: prefix_added(self.prefixes, s.name@),
            modules: self.modules,
        }
    }

    /// The index after inserting the symbols of `s` in order.
    pub open spec fn inserted_all(self, s: Seq<Symbol>) -> IndexView
        decreases s.len(),
    {
        if s.len() == 0 {
            self
        } else {
            self.inserted_all(s.drop_last()).inserted(s.last())
        }
    }

    /// The index after removing `package`.
    pub open spec fn package_removed(self, package: Seq<char>) -> IndexView {
        IndexView {
            names: purged(self.names, package),
            packages: self.packages.remove(package),
            prefixes: self.prefixes,
            modules: self.modules.remove(package),
        }
    }

    /// The index after recording `info` for its module.
    pub open spec fn module_recorded(self, info: ModuleInfo) -> IndexView {
        IndexView { modules: self.modules.insert(info.path@, info), ..self }
    }

    /// The index after recording the modules of `infos` in order.
    pub open spec fn recorded_all(self, infos: Seq<ModuleInfo>) -> IndexView
        decreases infos.len(),
    {
        if infos.len() == 0 {
            self
        } else {
            self.recorded_all(infos.drop_last()).module_recorded(infos.last())
        }
    }

    /// An index holding nothing.
    pub open spec fn empty() -> IndexView {
        IndexView { names: Map::empty(), packages: Map::empty(), prefixes: Map::empty(), modules: Map::empty() }
    }

    /// The invariant of the index.
    pub open spec fn valid(self) -> bool {
        &&& self.names.dom().finite()
        &&& self.packages.dom().finite()
        &&& self.prefixes.dom().finite()
        &&& self.modules.dom().finite()
        // every name list is non-empty and holds symbols of that name
        &&& forall|n: Seq<char>| #[trigger] self.names.contains_key(n) ==> self.names[n].len() > 0
        &&& forall|n: Seq<char>, i: int| self.names.contains_key(n) && 0 <= i < self.names[n].len()
            ==> (#[trigger] self.names[n][i]).name@ == n
        // every package list is non-empty and holds symbols of that package
        &&& forall|p: Seq<char>| #[trigger] self.packages.contains_key(p) ==> self.packages[p].len() > 0
        &&& forall|p: Seq<char>, j: int| self.packages.contains_key(p) && 0 <= j < self.packages[p].len()
            ==> (#[trigger] self.packages[p][j]).package@ == p
        // a symbol found by name is found in its package too
        &&& forall|n: Seq<char>, i: int| self.names.contains_key(n) && 0 <= i < self.names[n].len()
            ==> listed_in_package(self.packages, #[trigger] self.names[n][i])
        // a symbol found in its package is found by its name too
        &&& forall|p: Seq<char>, j: int| self.packages.contains_key(p) && 0 <= j < self.packages[p].len()
            ==> listed_by_name(self.names, #[trigger] self.packages[p][j])
        // a symbol occurs in its package as often as under its name
        &&& forall|t: Symbol| #[trigger] same_occurrences(self, t)
        // every non-empty name is listed once under its first character
        &&& forall|n: Seq<char>| #[trigger] self.names.contains_key(n) && n.len() > 0
            ==> self.prefixes.contains_key(n[0]) && self.prefixes[n[0]].contains(n)
        &&& forall|c: char| #[trigger] self.prefixes.contains_key(c) ==> self.prefixes[c].no_duplicates()
        // a module record is stored under its own path
        &&& forall|k: Seq<char>| #[trigger] self.modules.contains_key(k) ==> self.modules[k].path@ == k
    }
}

/// Inserting a symbol keeps the invariant of the index.
pub proof fn lemma_inserted_valid(v: IndexView, s: Symbol)
    requires
        v.valid(),
    ensures
        v.inserted(s).valid(),
{
    let w = v.inserted(s);
    assert(w.names.dom() =~= v.names.dom().insert(s.name@));
    assert(w.packages.dom() =~= v.packages.dom().insert(s.package@));
    assert forall|n: Seq<char>, i: int| w.names.contains_key(n) && 0 <= i < w.names[n].len()
        implies listed_in_package(w.packages, #[trigger] w.names[n][i]) by {
        let t = w.names[n][i];
        let q = t.package@;
        if n == s.name@ && i == w.names[n].len() - 1 {
            let j = w.packages[q].len() - 1;
            assert(w.packages[q][j].name@ == t.name@);
        } else {
            assert(v.names.contains_key(n) && 0 <= i < v.names[n].len());
            assert(t == v.names[n][i]);
            assert(listed_in_package(v.packages, v.names[n][i]));
            let j = choose|j: int| 0 <= j < v.packages[q].len() && #[trigger] v.packages[q][j].name@ == t.name@;
            assert(w.packages[q][j] == v.packages[q][j]);
        }
    }
    assert forall|p: Seq<char>, j: int| w.packages.contains_key(p) && 0 <= j < w.packages[p].len()
        implies listed_by_name(w.names, #[trigger] w.packages[p][j]) by {
        let t = w.packages[p][j];
        let n = t.name@;
        if p == s.package@ && j == w.packages[p].len() - 1 {
            assert(w.names[n][w.names[n].len() - 1] == t);
        } else {
            assert(v.packages.contains_key(p) && 0 <= j < v.packages[p].len());
            assert(t == v.packages[p][j]);
            assert(listed_by_name(v.names, v.packages[p][j]));
            let k = choose|k: int| 0 <= k < v.names[n].len() && v.names[n][k] == t;
            assert(w.names[n][k] == t);
        }
    }
    lemma_inserted_occurrences(v, s);
    assert forall|n: Seq<char>| #[trigger] w.names.contains_key(n) && n.len() > 0
        implies w.prefixes.contains_key(n[0]) && w.prefixes[n[0]].contains(n) by {
        if n == s.name@ {
            let listed = if v.prefixes.contains_key(n[0]) { v.prefixes[n[0]] } else { Seq::empty() };
            if !listed.contains(n) {
                assert(w.prefixes[n[0]][listed.len() as int] == n);
            }
        } else {
            assert(v.prefixes.contains_key(n[0]) && v.prefixes[n[0]].contains(n));
            let k = choose|k: int| 0 <= k < v.prefixes[n[0]].len() && v.prefixes[n[0]][k] == n;
            if s.name@.len() > 0 && s.name@[0] == n[0] {
                assert(w.prefixes[n[0]][k] == n);
            }
        }
    }
    assert forall|c: char| #[trigger] w.prefixes.contains_key(c) implies w.prefixes[c].no_duplicates() by {
        if s.name@.len() > 0 && c == s.name@[0] {
            let listed = if v.prefixes.contains_key(c) { v.prefixes[c] } else { Seq::empty() };
            if !listed.contains(s.name@) {
                assert forall|a: int, b: int| 0 <= a < w.prefixes[c].len() && 0 <= b < w.prefixes[c].len() && a != b
                    implies w.prefixes[c][a] != w.prefixes[c][b] by {
                    if a == listed.len() {
                        assert(listed[b] == w.prefixes[c][b]);
                    } else if b == listed.len() {
                        assert(listed[a] == w.prefixes[c][a]);
                    }
                }
            }
        }
    }
}

/// Inserting a symbol counts it once under its name and once in its package.
proof fn lemma_inserted_occurrences(v: IndexView, s: Symbol)
    requires
        forall|t: Symbol| #[trigger] same_occurrences(v, t),
    ensures
        forall|t: Symbol| #[trigger] same_occurrences(v.inserted(s), t),
{
    let w = v.inserted(s);
    assert forall|t: Symbol| #[trigger] same_occurrences(w, t) by {
        assert(same_occurrences(v, t));
        if t.package@ == s.package@ {
            lemma_occurrences_push(list_at(v.packages, s.package@), s, t);
        }
        if t.name@ == s.name@ {
            lemma_occurrences_push(list_at(v.names, s.name@), s, t);
        }
        if t == s {
            assert(t.package@ == s.package@ && t.name@ == s.name@);
        }
    }
}

/// Inserting symbols one by one keeps the invariant of the index.
pub proof fn lemma_inserted_all_valid(v: IndexView, s: Seq<Symbol>)
    requires
        v.valid(),
    ensures
        v.inserted_all(s).valid(),
    decreases s.len(),
{
    if s.len() > 0 {
        lemma_inserted_all_valid(v, s.drop_last());
        lemma_inserted_valid(v.inserted_all(s.drop_last()), s.last());
    }
}

/// What `without_package` keeps: symbols of `s` from other packages.
pub proof fn lemma_without_package_members(s: Seq<Symbol>, package: Seq<char>)
    ensures
        forall|k: int| 0 <= k < without_package(s, package).len() ==> {
            &&& (#[trigger] without_package(s, package)[k]).package@ != package
            &&& s.contains(without_package(s, package)[k])
        },
        without_package(s, package).len() <= s.len(),
    decreases s.len(),
{
    if s.len() > 0 {
        let rest = s.drop_last();
        lemma_without_package_members(rest, package);
        assert forall|k: int| 0 <= k < without_package(s, package).len() implies {
            &&& (#[trigger] without_package(s, package)[k]).package@ != package
            &&& s.contains(without_package(s, package)[k])
        } by {
            let w = without_package(rest, package);
            if k < w.len() {
                assert(without_package(s, package)[k] == w[k]);
                let j = choose|j: int| 0 <= j < rest.len() && rest[j] == w[k];
                assert(s[j] == rest[j]);
            } else {
                assert(without_package(s, package)[k] == s.last());
                assert(s[s.len() - 1] == s.last());
            }
        }
    }
}

/// `without_package` leaves a list with no symbol of the package as it is.
pub proof fn lemma_without_package_noop(s: Seq<Symbol>, package: Seq<char>)
    requires
        forall|k: int| 0 <= k < s.len() ==> (#[trigger] s[k]).package@ != package,
    ensures
        without_package(s, package) == s,
    decreases s.len(),
{
    if s.len() > 0 {
        lemma_without_package_noop(s.drop_last(), package);
        assert(s.drop_last().push(s.last()) =~= s);
    }
}

/// Dropping a package twice is dropping it once.
pub proof fn lemma_without_package_idempotent(s: Seq<Symbol>, package: Seq<char>)
    ensures
        without_package(without_package(s, package), package) == without_package(s, package),
{
    lemma_without_package_members(s, package);
    lemma_without_package_noop(without_package(s, package), package);
}

/// Removing a package keeps the invariant of the index.
pub proof fn lemma_package_removed_valid(v: IndexView, package: Seq<char>)
    requires
        v.valid(),
    ensures
        v.package_removed(package).valid(),
{
    let w = v.package_removed(package);
    assert(w.names.dom() =~= v.names.dom().filter(
        |n: Seq<char>| without_package(v.names[n], package).len() > 0,
    ));
    assert(w.names.dom().subset_of(v.names.dom()));
    vstd::set_lib::lemma_set_subset_finite(v.names.dom(), w.names.dom());
    assert forall|n: Seq<char>, i: int| w.names.contains_key(n) && 0 <= i < w.names[n].len()
        implies (#[trigger] w.names[n][i]).name@ == n && listed_in_package(w.packages, w.names[n][i]) by {
        lemma_without_package_members(v.names[n], package);
        let t = w.names[n][i];
        let j = choose|j: int| 0 <= j < v.names[n].len() && v.names[n][j] == t;
        assert(v.names[n][j] == t);
        assert(listed_in_package(v.packages, v.names[n][j]));
        let q = t.package@;
        assert(q != package);
        let m = choose|m: int| 0 <= m < v.packages[q].len() && #[trigger] v.packages[q][m].name@ == t.name@;
        assert(w.packages[q][m] == v.packages[q][m]);
    }
    assert forall|t: Symbol| #[trigger] same_occurrences(w, t) by {
        assert(same_occurrences(v, t));
        let n = t.name@;
        lemma_occurrences_without(list_at(v.names, n), package, t);
        if t.package@ == package {
            assert(list_at(w.packages, t.package@) =~= Seq::<Symbol>::empty());
        }
        if !w.names.contains_key(n) {
            assert(list_at(w.names, n) =~= Seq::<Symbol>::empty());
            if v.names.contains_key(n) {
                assert(without_package(v.names[n], package).len() == 0);
                assert(without_package(v.names[n], package) =~= Seq::<Symbol>::empty());
            } else {
                assert(list_at(v.names, n) =~= Seq::<Symbol>::empty());
            }
        }
    }
    assert forall|q: Seq<char>, j: int| w.packages.contains_key(q) && 0 <= j < w.packages[q].len()
        implies listed_by_name(w.names, #[trigger] w.packages[q][j]) by {
        let t = w.packages[q][j];
        let n = t.name@;
        assert(t == v.packages[q][j]);
        assert(listed_by_name(v.names, v.packages[q][j]));
        lemma_keeps_others(v.names[n], package, t);
        assert(without_package(v.names[n], package).contains(t));
    }
}

/// A symbol of another package is kept by `without_package` exactly when it
/// was there.
pub proof fn lemma_keeps_others(s: Seq<Symbol>, package: Seq<char>, t: Symbol)
    ensures
        t.package@ != package ==> (without_package(s, package).contains(t) <==> s.contains(t)),
    decreases s.len(),
{
    if s.len() > 0 && t.package@ != package {
        let rest = s.drop_last();
        lemma_keeps_others(rest, package, t);
        let w = without_package(s, package);
        let wr = without_package(rest, package);
        if s.contains(t) {
            let j = choose|j: int| 0 <= j < s.len() && s[j] == t;
            if j < s.len() - 1 {
                assert(rest[j] == t);
                let k = choose|k: int| 0 <= k < wr.len() && wr[k] == t;
                assert(w[k] == t);
            } else {
                assert(w[w.len() - 1] == t);
            }
        }
        if w.contains(t) {
            let k = choose|k: int| 0 <= k < w.len() && w[k] == t;
            if k < wr.len() {
                assert(wr[k] == t);
                let j = choose|j: int| 0 <= j < rest.len() && rest[j] == t;
                assert(s[j] == t);
            } else {
                assert(s[s.len() - 1] == t);
            }
        }
    }
}

/// The inverted index.
pub struct InvertedIndex {
    /// name -> symbols of that name
    pub(crate) name_index: DashMap<String, Vec<Symbol>>,
    /// package path -> symbols in that package
    pub(crate) package_index: DashMap<String, Vec<Symbol>>,
    /// first character -> names, for completion
    pub(crate) prefix_index: DashMap<char, Vec<String>>,
    /// module path -> metadata
    pub(crate) module_metadata: DashMap<String, ModuleInfo>,
}

impl View for InvertedIndex {
    type V = IndexView;

    closed spec fn view(&self) -> IndexView {
        IndexView {
            names: symbol_lists(self.name_index),
            packages: symbol_lists(self.package_index),
            prefixes: prefix_lists(self.prefix_index),
            modules: module_records(self.module_metadata),
        }
    }
}

/// Whether `name` is among the names of `list`.
fn lists_name(list: &Vec<String>, name: &String) -> (found: bool)
    ensures
        found == string_views(list@).contains(name@),
{
    let mut k: usize = 0;
    while k < list.len()
        invariant
            k <= list.len(),
            forall|j: int| 0 <= j < k ==> list@[j]@ != name@,
        decreases list.len() - k,
    {
        if list[k] == *name {
            assert(string_views(list@)[k as int] == name@);
            return true;
        }
        k = k + 1;
    }
    proof {
        if string_views(list@).contains(name@) {
            let j = choose|j: int| 0 <= j < string_views(list@).len() && string_views(list@)[j] == name@;
            assert(list@[j]@ == name@);
        }
    }
    false
}

/// The symbols of `list` whose package is not `package`, in order.
fn keep_other_packages(list: &Vec<Symbol>, package: &str) -> (kept: Vec<Symbol>)
    ensures
        kept@ == without_package(list@, package@),
{
    let owned = package.to_owned();
    let mut kept: Vec<Symbol> = Vec::new();
    let mut i: usize = 0;
    while i < list.len()
        invariant
            i <= list.len(),
            kept@ == without_package(list@.take(i as int), package@),
            owned@ == package@,
        decreases list.len() - i,
    {
        assert(list@.take(i + 1).drop_last() =~= list@.take(i as int));
        if list[i].package != owned {
            kept.push(list[i].copy());
        }
        i = i + 1;
    }
    assert(list@.take(list.len() as int) =~= list@);
    kept
}

impl InvertedIndex {
    /// The invariant of the index.
    pub open spec fn wf(&self) -> bool {
        self@.valid()
    }

    /// An empty index.
    pub fn new() -> (index: InvertedIndex)
        ensures
            index.wf(),
            index@ == IndexView::empty(),
    {
        let index = InvertedIndex {
            name_index: new_symbol_lists(100_000),
            package_index: new_symbol_lists(10_000),
            prefix_index: new_prefix_lists(),
            module_metadata: new_module_records(),
        };
        assert(index@ == IndexView::empty());
        index
    }

    /// Inserts a symbol: it is appended to the symbols of its name and to
    /// those of its package, and its name is listed under its first character.
    pub fn insert(&mut self, symbol: Symbol)
        requires
            old(self).wf(),
        ensures
            final(self).wf(),
            final(self)@ == old(self)@.inserted(symbol),
    {
        proof { lemma_inserted_valid(self@, symbol); }
        let ghost before = self@;
        let name = symbol.name.clone();
        let package = symbol.package.clone();
        let copy = symbol.copy();

        // name -> symbols
        let mut by_name = match symbol_lists_remove(&mut self.name_index, name.as_str()) {
            Some(list) => list,
            None => Vec::new(),
        };
        by_name.push(copy);
        symbol_lists_insert(&mut self.name_index, name.clone(), by_name);
        assert(self@.names =~= appended(before.names, symbol.name@, symbol));

        // package -> symbols
        let mut by_package = match symbol_lists_remove(&mut self.package_index, package.as_str()) {
            Some(list) => list,
            None => Vec::new(),
        };
        by_package.push(symbol);
        symbol_lists_insert(&mut self.package_index, package, by_package);
        assert(self@.packages =~= appended(before.packages, symbol.package@, symbol));

        // first character -> names
        if !name.as_str().is_empty() {
            let first = name.as_str().get_char(0);
            let ghost c = symbol.name@[0];
            assert(first == c);
            let ghost held = if before.prefixes.contains_key(c) { before.prefixes[c] } else { Seq::empty() };
            let mut listed = match prefix_lists_remove(&mut self.prefix_index, first) {
                Some(list) => list,
                None => Vec::new(),
            };
            assert(string_views(listed@) =~= held);
            if lists_name(&listed, &name) {
                assert(before.prefixes.contains_key(c));
                prefix_lists_insert(&mut self.prefix_index, first, listed);
                assert(self@.prefixes =~= before.prefixes);
            } else {
                let ghost shown = name@;
                listed.push(name);
                assert(string_views(listed@) =~= held.push(shown));
                prefix_lists_insert(&mut self.prefix_index, first, listed);
                assert(self@.prefixes =~= before.prefixes.insert(c, held.push(shown)));
            }
        }
        assert(self@.prefixes =~= prefix_added(before.prefixes, symbol.name@));
        assert(self@ == before.inserted(symbol));
    }

    /// The symbols named `name`, if there are any.
    pub fn get_by_name(&self, name: &str) -> (found: Option<Vec<Symbol>>)
        ensures
            found.is_some() == self@.names.contains_key(name@),
            found.is_some() ==> found.unwrap()@ == self@.names[name@],
    {
        symbol_lists_get(&self.name_index, name)
    }

    /// The symbols of the package `package`, if there are any.
    pub fn get_by_package(&self, package: &str) -> (found: Option<Vec<Symbol>>)
        ensures
            found.is_some() == self@.packages.contains_key(package@),
            found.is_some() ==> found.unwrap()@ == self@.packages[package@],
    {
        symbol_lists_get(&self.package_index, package)
    }

    /// Removes every symbol of `package`, for incremental updates: the
    /// package is forgotten, its symbols leave the lists of their names,
    /// names left without symbols are dropped, and the module record of that
    /// path is dropped too.
    pub fn remove_package(&mut self, package: &str)
        requires
            old(self).wf(),
        ensures
            final(self).wf(),
            final(self)@ == old(self)@.package_removed(package@),
    {
        proof { lemma_package_removed_valid(self@, package@); }
        let ghost before = self@;
        let ghost p = package@;
        match symbol_lists_remove(&mut self.package_index, package) {
            Some(symbols) => {
                let ghost mut done: Set<Seq<char>> = Set::empty();
                let mut i: usize = 0;
                while i < symbols.len()
                    invariant
                        before.valid(),
                        before.packages.contains_key(p),
                        symbols@ == before.packages[p],
                        package@ == p,
                        i <= symbols.len(),
                        self@.packages == before.packages.remove(p),
                        self@.prefixes == before.prefixes,
                        self@.modules == before.modules,
                        forall|k: int| 0 <= k < i ==> done.contains(#[trigger] symbols@[k].name@),
                        self@.names == Map::new(
                            |n: Seq<char>| before.names.contains_key(n) && (done.contains(n) ==> without_package(before.names[n], p).len() > 0),
                            |n: Seq<char>| if done.contains(n) { without_package(before.names[n], p) } else { before.names[n] },
                        ),
                    decreases symbols.len() - i,
                {
                    let ghost names_before = self@.names;
                    let name = &symbols[i].name;
                    let ghost n = name@;
                    match symbol_lists_remove(&mut self.name_index, name.as_str()) {
                        Some(list) => {
                            let kept = keep_other_packages(&list, package);
                            proof {
                                if done.contains(n) {
                                    lemma_without_package_idempotent(before.names[n], p);
                                }
                            }
                            if kept.len() > 0 {
                                symbol_lists_insert(&mut self.name_index, name.clone(), kept);
                            }
                        }
                        None => {}
                    }
                    proof { done = done.insert(n); }
                    assert(self@.names =~= Map::new(
                        |m: Seq<char>| before.names.contains_key(m) && (done.contains(m) ==> without_package(before.names[m], p).len() > 0),
                        |m: Seq<char>| if done.contains(m) { without_package(before.names[m], p) } else { before.names[m] },
                    ));
                    i = i + 1;
                }
                proof {
                    assert forall|n: Seq<char>| before.names.contains_key(n) && !done.contains(n)
                        implies without_package(before.names[n], p) == before.names[n] by {
                        assert forall|k: int| 0 <= k < before.names[n].len()
                            implies (#[trigger] before.names[n][k]).package@ != p by {
                            if before.names[n][k].package@ == p {
                                assert(listed_in_package(before.packages, before.names[n][k]));
                                let j = choose|j: int| 0 <= j < before.packages[p].len() && #[trigger] before.packages[p][j].name@ == n;
                                assert(done.contains(symbols@[j].name@));
                            }
                        }
                        lemma_without_package_noop(before.names[n], p);
                    }
                    assert(self@.names =~= purged(before.names, p));
                }
            }
            None => {
                proof {
                    assert forall|n: Seq<char>| before.names.contains_key(n)
                        implies without_package(before.names[n], p) == before.names[n] by {
                        assert forall|k: int| 0 <= k < before.names[n].len()
                            implies (#[trigger] before.names[n][k]).package@ != p by {
                            assert(listed_in_package(before.packages, before.names[n][k]));
                        }
                        lemma_without_package_noop(before.names[n], p);
                    }
                    assert(self@.names =~= purged(before.names, p));
                    assert(self@.packages =~= before.packages.remove(p));
                }
            }
        }
        module_records_remove(&mut self.module_metadata, package);
        assert(self@ == before.package_removed(p));
    }

    /// Counts of symbols, packages and modules.
    pub fn stats(&self) -> (stats: IndexStats)
        ensures
            stats.total_symbols == capped(symbol_count(self@.names)),
            stats.total_packages == self@.packages.dom().len(),
            stats.total_modules == self@.modules.dom().len(),
    {
        let names = symbol_lists_keys(&self.name_index);
        let ghost order = string_views(names@);
        let ghost table = self@.names;
        let mut total: usize = 0;
        let mut i: usize = 0;
        while i < names.len()
            invariant
                i <= names@.len(),
                order == string_views(names@),
                table == self@.names,
                total == capped(count_in_order(table, order.take(i as int))),
            decreases names.len() - i,
        {
            assert(order.take(i + 1).drop_last() =~= order.take(i as int));
            assert(order.take(i + 1).last() == names@[i as int]@);
            let len = match symbol_lists_get(&self.name_index, names[i].as_str()) {
                Some(list) => list.len(),
                None => 0,
            };
            if total > usize::MAX - len {
                total = usize::MAX;
            } else {
                total = total + len;
            }
            i = i + 1;
        }
        assert(order.take(order.len() as int) =~= order);
        proof {
            lemma_count_in_order(table, order);
        }
        IndexStats {
            total_symbols: total,
            total_packages: symbol_lists_len(&self.package_index),
            total_modules: module_records_len(&self.module_metadata),
        }
    }

    /// Whether no name is indexed.
    pub fn is_empty(&self) -> (empty: bool)
        ensures
            empty == (self@.names.dom().len() == 0),
    {
        symbol_lists_is_empty(&self.name_index)
    }

    /// Inserts the symbols one by one, in order.
    pub fn batch_insert(&mut self, symbols: Vec<Symbol>)
        requires
            old(self).wf(),
        ensures
            final(self).wf(),
            final(self)@ == old(self)@.inserted_all(symbols@),
    {
        let ghost before = self@;
        let mut i: usize = 0;
        while i < symbols.len()
            invariant
                i <= symbols.len(),
                self.wf(),
                self@ == before.inserted_all(symbols@.take(i as int)),
            decreases symbols.len() - i,
        {
            assert(symbols@.take(i + 1).drop_last() =~= symbols@.take(i as int));
            self.insert(symbols[i].copy());
            i = i + 1;
        }
        assert(symbols@.take(symbols.len() as int) =~= symbols@);
    }

    /// Every indexed name once, in the map's own order.
    pub fn all_symbol_names(&self) -> (names: Vec<String>)
        ensures
            string_views(names@).no_duplicates(),
            string_views(names@).to_set() == self@.names.dom(),
    {
        symbol_lists_keys(&self.name_index)
    }

    /// The names listed under the first character `first`, if any.
    pub(crate) fn names_under(&self, first: char) -> (found: Option<Vec<String>>)
        ensures
            found.is_some() == self@.prefixes.contains_key(first),
            found.is_some() ==> string_views(found.unwrap()@) == self@.prefixes[first],
    {
        prefix_lists_get(&self.prefix_index, first)
    }

    /// Records the metadata of a module under its path.
    pub fn record_module(&mut self, info: ModuleInfo)
        requires
            old(self).wf(),
        ensures
            final(self).wf(),
            final(self)@ == old(self)@.module_recorded(info),
    {
        let ghost before = self@;
        let key = info.path.clone();
        module_records_insert(&mut self.module_metadata, key, info);
        assert(self@.modules.dom() =~= before.modules.dom().insert(info.path@));
        assert forall|t: Symbol| #[trigger] same_occurrences(self@, t) by {
            assert(same_occurrences(before, t));
        }
        assert(self@ == before.module_recorded(info));
    }

    /// Every module record once, in the map's own order.
    pub fn module_infos(&self) -> (infos: Vec<ModuleInfo>)
        requires
            self.wf(),
        ensures
            infos@.map_values(|m: ModuleInfo| m.path@).no_duplicates(),
            infos@.map_values(|m: ModuleInfo| m.path@).to_set() == self@.modules.dom(),
            forall|i: int| 0 <= i < infos@.len() ==> self@.modules[(#[trigger] infos@[i]).path@] == infos@[i],
    {
        let entries = module_records_entries(&self.module_metadata);
        let mut infos: Vec<ModuleInfo> = Vec::new();
        let mut i: usize = 0;
        while i < entries.len()
            invariant
                i <= entries.len(),
                infos@.len() == i,
                forall|k: int| 0 <= k < i ==> #[trigger] infos@[k] == entries@[k].1,
            decreases entries.len() - i,
        {
            infos.push(entries[i].1.copy());
            i = i + 1;
        }
        let ghost keys = entries@.map_values(|e: (String, ModuleInfo)| e.0@);
        assert forall|k: int| 0 <= k < infos@.len() implies infos@[k].path@ == keys[k]
            && self@.modules[(#[trigger] infos@[k]).path@] == infos@[k] by {
            assert(self@.modules[entries@[k].0@] == entries@[k].1);
            assert(self@.modules.contains_key(keys[k])) by {
                assert(keys.to_set().contains(keys[k]));
            }
        }
        assert(infos@.map_values(|m: ModuleInfo| m.path@) =~= keys);
        infos
    }
}

impl Default for InvertedIndex {
    fn default() -> (index: InvertedIndex)
        ensures
            index.wf(),
            index@ == IndexView::empty(),
    {
        InvertedIndex::new()
    }
}

} // verus!
