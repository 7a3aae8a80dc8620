//! Building the index from parsed modules, and keeping it up to date from
//! file system events.
//!
//! Walking directories, reading files, watching the file system and saving
//! the cache are the caller's; this module decides what each module and
//! each event does to the index.

use vstd::prelude::*;
use crate::cache::{lists_in_order, MmapCache};
use crate::index::{IndexView, InvertedIndex, ModuleInfo, Symbol};
use crate::index::query::is_name_order;
use crate::index::tables::string_views;
use crate::parser::{is_text, GoModuleParser, ParsedModule};
use crate::paths::{extension, file_name, join_path, joined, parent, parent_of};
use crate::text::{chars_of, same_chars};

verus! {

/// A change that concerns the index.
#[derive(Debug, Clone, PartialEq, Eq)]
pub enum IndexEvent {
    /// A Go file at this path was created or changed.
    FileChanged(String),
    /// The file at this path was removed.
    FileRemoved(String),
    /// A `go.mod` file at this path was created or changed.
    ModuleAdded(String),
    /// The `go.mod` file at this path was removed.
    ModuleRemoved(String),
}

/// The kind of a file system event, as far as the index cares.
#[derive(Debug, Clone, Copy, PartialEq, Eq, Structural)]
pub enum FsEventKind {
    Create,
    Modify,
    Remove,
    Other,
}

/// What an event asks of the caller.
#[derive(Debug, Clone, PartialEq, Eq)]
pub enum IndexAction {
    /// Parse the module of this `go.mod` file and replace its package with
    /// it; when `only_if_present`, only if that file exists.
    ReparseModule { manifest: String, only_if_present: bool },
    /// Remove the modules read from the `go.mod` file at this path.
    RemoveManifest(String),
    /// Nothing to do.
    Ignore,
}

/// The event a file system event on `path` makes, if any: a `go.mod`
/// created or changed adds its module, another Go file created or changed
/// is a changed file; a `go.mod` removed removes the modules read from it,
/// another file removed is a removed file.
pub open spec fn event_for(kind: FsEventKind, path: Seq<char>) -> Option<(nat, Seq<char>)> {
    match kind {
        FsEventKind::Create | FsEventKind::Modify => if file_name(path) == "go.mod"@ {
            Some((2, path))
        } else if extension(path) == Some("go"@) {
            Some((0, path))
        } else {
            None
        },
        FsEventKind::Remove => if file_name(path) == "go.mod"@ { Some((3, path)) } else { Some((1, path)) },
        FsEventKind::Other => None,
    }
}

/// The variant number and path of an event.
pub open spec fn event_parts(event: IndexEvent) -> (nat, Seq<char>) {
    match event {
        IndexEvent::FileChanged(p) => (0, p@),
        IndexEvent::FileRemoved(p) => (1, p@),
        IndexEvent::ModuleAdded(p) => (2, p@),
        IndexEvent::ModuleRemoved(p) => (3, p@),
    }
}

/// The event that a file system event of kind `kind` on `path` makes.
pub fn classify_event(kind: FsEventKind, path: &str) -> (event: Option<IndexEvent>)
    ensures
        match event {
            Some(e) => event_for(kind, path@) == Some(event_parts(e)),
            None => event_for(kind, path@).is_none(),
        },
{
    let p = chars_of(path);
    let name = crate::paths::file_name_of(&p);
    let is_manifest = same_chars(&name, &chars_of("go.mod"));
    match kind {
        FsEventKind::Create | FsEventKind::Modify => {
            if is_manifest {
                Some(IndexEvent::ModuleAdded(path.to_owned()))
            } else {
                match crate::paths::extension_of(&p) {
                    Some(ext) => if same_chars(&ext, &chars_of("go")) {
                        Some(IndexEvent::FileChanged(path.to_owned()))
                    } else {
                        None
                    },
                    None => None,
                }
            }
        },
        FsEventKind::Remove => {
            if is_manifest {
                Some(IndexEvent::ModuleRemoved(path.to_owned()))
            } else {
                Some(IndexEvent::FileRemoved(path.to_owned()))
            }
        },
        FsEventKind::Other => None,
    }
}

/// What the caller does for an event.
pub open spec fn action_for(event: IndexEvent) -> (nat, Seq<char>, bool) {
    match event {
        IndexEvent::ModuleAdded(p) => (0, p@, false),
        IndexEvent::FileChanged(p) => (0, joined(parent(p@), "go.mod"@), true),
        IndexEvent::ModuleRemoved(m) => (1, m@, false),
        IndexEvent::FileRemoved(_) => (2, Seq::empty(), false),
    }
}

/// The variant number, path and flag of an action.
pub open spec fn action_parts(action: IndexAction) -> (nat, Seq<char>, bool) {
    match action {
        IndexAction::ReparseModule { manifest, only_if_present } => (0, manifest@, only_if_present),
        IndexAction::RemoveManifest(p) => (1, p@, false),
        IndexAction::Ignore => (2, Seq::empty(), false),
    }
}

/// What to do for an event: a new or changed module is parsed again; a
/// changed Go file has the module of its directory parsed again, if that
/// directory holds a `go.mod`; a removed `go.mod` removes the modules read
/// from it; a removed file changes nothing.
pub fn plan_event(event: &IndexEvent) -> (action: IndexAction)
    ensures
        action_parts(action) == action_for(*event),
{
    match event {
        IndexEvent::ModuleAdded(p) => IndexAction::ReparseModule { manifest: p.clone(), only_if_present: false },
        IndexEvent::FileChanged(p) => {
            let dir = parent_of(p.as_str());
            IndexAction::ReparseModule { manifest: join_path(dir.as_str(), "go.mod"), only_if_present: true }
        },
        IndexEvent::ModuleRemoved(m) => IndexAction::RemoveManifest(m.clone()),
        IndexEvent::FileRemoved(_) => IndexAction::Ignore,
    }
}

/// `info` is the record of the parsed module `module`.
pub open spec fn describes(info: ModuleInfo, module: ParsedModule) -> bool {
    &&& info.path@ == module.path@
    &&& info.version@ == match module.version {
        Some(v) => v@,
        None => Seq::empty(),
    }
    &&& info.go_version@ == module.go_version@
    &&& info.symbol_count == module.symbols@.len()
    &&& info.manifest@ == module.manifest@
}

/// The symbols of a series of modules, module by module.
pub open spec fn all_symbols(modules: Seq<ParsedModule>) -> Seq<Symbol>
    decreases modules.len(),
{
    if modules.len() == 0 {
        Seq::empty()
    } else {
        all_symbols(modules.drop_last()) + modules.last().symbols@
    }
}

/// The record of a parsed module.
pub fn module_info(module: &ParsedModule) -> (info: ModuleInfo)
    ensures
        describes(info, *module),
{
    let version = match &module.version {
        Some(v) => v.clone(),
        None => String::new(),
    };
    ModuleInfo {
        path: module.path.clone(),
        version,
        go_version: module.go_version.clone(),
        symbol_count: module.symbols.len(),
        manifest: module.manifest.clone(),
    }
}

/// Builds and updates an index.
pub struct IndexBuilder {
    index: InvertedIndex,
    cache: MmapCache,
    parser: GoModuleParser,
}

impl View for IndexBuilder {
    type V = IndexView;

    closed spec fn view(&self) -> IndexView {
        self.index@
    }
}

impl IndexBuilder {
    /// The invariant of the index being built.
    pub closed spec fn wf(&self) -> bool {
        self.index.wf()
    }

    /// The cache directory of the builder.
    pub closed spec fn cache_dir(&self) -> String {
        self.cache.dir()
    }

    /// A builder of an empty index, with its cache in `cache_dir`.
    pub fn new(cache_dir: String) -> (builder: IndexBuilder)
        ensures
            builder.wf(),
            builder@ == IndexView::empty(),
            builder.cache_dir()@ == cache_dir@,
    {
        IndexBuilder { index: InvertedIndex::new(), cache: MmapCache::new(cache_dir), parser: GoModuleParser::new() }
    }

    /// A builder that adds to `index`, with its cache in `cache_dir`.
    pub fn with_index(index: InvertedIndex, cache_dir: String) -> (builder: IndexBuilder)
        requires
            index.wf(),
        ensures
            builder.wf(),
            builder@ == index@,
            builder.cache_dir()@ == cache_dir@,
    {
        IndexBuilder { index, cache: MmapCache::new(cache_dir), parser: GoModuleParser::new() }
    }

    /// The index being built.
    pub fn index(&self) -> (index: &InvertedIndex)
        ensures
            index@ == self@,
            self.wf() ==> index.wf(),
    {
        &self.index
    }

    /// The index that was built.
    pub fn into_index(self) -> (index: InvertedIndex)
        ensures
            index@ == self@,
            self.wf() ==> index.wf(),
    {
        self.index
    }

    /// The cache the index is saved to.
    pub fn cache(&self) -> (cache: &MmapCache)
        ensures
            cache.dir() == self.cache_dir(),
    {
        &self.cache
    }

    /// The parser the builder uses.
    pub fn parser(&self) -> &GoModuleParser {
        &self.parser
    }

    /// Adds a parsed module: its record, then its symbols.
    pub fn add_module_to_index(&mut self, module: &ParsedModule)
        requires
            old(self).wf(),
        ensures
            final(self).wf(),
            final(self)@.names == old(self)@.inserted_all(module.symbols@).names,
            final(self)@.packages == old(self)@.inserted_all(module.symbols@).packages,
            final(self)@.prefixes == old(self)@.inserted_all(module.symbols@).prefixes,
            final(self)@.modules == old(self)@.modules.insert(module.path@, final(self)@.modules[module.path@]),
            describes(final(self)@.modules[module.path@], *module),
    {
        let info = module_info(module);
        let ghost recorded = info;
        self.index.record_module(info);
        let ghost mid = self.index@;
        let mut symbols: Vec<Symbol> = Vec::new();
        let mut i: usize = 0;
        while i < module.symbols.len()
            invariant
                i <= module.symbols@.len(),
                symbols@ == module.symbols@.take(i as int),
            decreases module.symbols.len() - i,
        {
            symbols.push(module.symbols[i].copy());
            i = i + 1;
            assert(symbols@ =~= module.symbols@.take(i as int));
        }
        assert(module.symbols@.take(module.symbols@.len() as int) =~= module.symbols@);
        self.index.batch_insert(symbols);
        proof {
            lemma_inserted_all_parts(old(self)@, mid, module.symbols@);
        }
    }

    /// Adds parsed modules in order.
    pub fn build_from_modules(&mut self, modules: &Vec<ParsedModule>)
        requires
            old(self).wf(),
        ensures
            final(self).wf(),
            final(self)@.names == old(self)@.inserted_all(all_symbols(modules@)).names,
            final(self)@.packages == old(self)@.inserted_all(all_symbols(modules@)).packages,
            final(self)@.prefixes == old(self)@.inserted_all(all_symbols(modules@)).prefixes,
            forall|p: Seq<char>| #[trigger] final(self)@.modules.contains_key(p)
                <==> old(self)@.modules.contains_key(p) || exists|i: int| 0 <= i < modules@.len() && modules@[i].path@ == p,
            forall|p: Seq<char>| old(self)@.modules.contains_key(p) && (forall|i: int| 0 <= i < modules@.len() ==> modules@[i].path@ != p)
                ==> #[trigger] final(self)@.modules[p] == old(self)@.modules[p],
            forall|i: int| 0 <= i < modules@.len() && (forall|j: int| i < j < modules@.len() ==> modules@[j].path@ != modules@[i].path@)
                ==> describes(#[trigger] final(self)@.modules[modules@[i].path@], modules@[i]),
    {
        let ghost start = self@;
        let mut k: usize = 0;
        while k < modules.len()
            invariant
                k <= modules@.len(),
                self.wf(),
                self@.names == start.inserted_all(all_symbols(modules@.take(k as int))).names,
                self@.packages == start.inserted_all(all_symbols(modules@.take(k as int))).packages,
                self@.prefixes == start.inserted_all(all_symbols(modules@.take(k as int))).prefixes,
                forall|p: Seq<char>| #[trigger] self@.modules.contains_key(p)
                    <==> start.modules.contains_key(p) || exists|i: int| 0 <= i < k && modules@[i].path@ == p,
                forall|p: Seq<char>| start.modules.contains_key(p) && (forall|i: int| 0 <= i < k ==> modules@[i].path@ != p)
                    ==> #[trigger] self@.modules[p] == start.modules[p],
                forall|i: int| 0 <= i < k && (forall|j: int| i < j < k ==> modules@[j].path@ != modules@[i].path@)
                    ==> describes(#[trigger] self@.modules[modules@[i].path@], modules@[i]),
            decreases modules.len() - k,
        {
            let ghost before = self@;
            let ghost prefix = modules@.take(k as int);
            assert(modules@.take(k + 1).drop_last() =~= prefix);
            assert(modules@.take(k + 1).last() == modules@[k as int]);
            proof {
                cache_lemma_concat(start, all_symbols(prefix), modules@[k as int].symbols@);
            }
            self.add_module_to_index(&modules[k]);
            proof {
                lemma_inserted_all_parts(start.inserted_all(all_symbols(prefix)), before, modules@[k as int].symbols@);
                assert(all_symbols(modules@.take(k + 1)) == all_symbols(prefix) + modules@[k as int].symbols@);
            }
            let ghost q = modules@[k as int].path@;
            assert forall|p: Seq<char>| #[trigger] self@.modules.contains_key(p)
                <==> start.modules.contains_key(p) || exists|i: int| 0 <= i < k + 1 && modules@[i].path@ == p by {
                if p != q && self@.modules.contains_key(p) {
                    assert(before.modules.contains_key(p));
                }
                if exists|i: int| 0 <= i < k + 1 && modules@[i].path@ == p {
                    let i = choose|i: int| 0 <= i < k + 1 && modules@[i].path@ == p;
                    if i < k {
                        assert(before.modules.contains_key(p));
                    }
                }
            }
            assert forall|i: int| 0 <= i < k + 1 && (forall|j: int| i < j < k + 1 ==> modules@[j].path@ != modules@[i].path@)
                implies describes(#[trigger] self@.modules[modules@[i].path@], modules@[i]) by {
                if i < k {
                    assert(modules@[k as int].path@ != modules@[i].path@);
                }
            }
            k = k + 1;
        }
        assert(modules@.take(modules@.len() as int) =~= modules@);
    }

    /// Adds every symbol of a cached index, name by name in the order the
    /// cached index lists its names.
    pub fn merge_cached(&mut self, cached: &InvertedIndex)
        requires
            old(self).wf(),
        ensures
            final(self).wf(),
            exists|order: Seq<Seq<char>>| is_name_order(cached@.names, order)
                && final(self)@ == old(self)@.inserted_all(lists_in_order(cached@.names, order)),
    {
        let ghost start = self@;
        let names = cached.all_symbol_names();
        let ghost order = string_views(names@);
        let mut i: usize = 0;
        while i < names.len()
            invariant
                i <= names@.len(),
                order == string_views(names@),
                self.wf(),
                self@ == start.inserted_all(lists_in_order(cached@.names, order.take(i as int))),
            decreases names.len() - i,
        {
            assert(order.take(i + 1).drop_last() =~= order.take(i as int));
            assert(order.take(i + 1).last() == names@[i as int]@);
            let ghost done = lists_in_order(cached@.names, order.take(i as int));
            match cached.get_by_name(names[i].as_str()) {
                Some(list) => {
                    let ghost mid = self@;
                    let mut j: usize = 0;
                    while j < list.len()
                        invariant
                            j <= list@.len(),
                            self.wf(),
                            self@ == mid.inserted_all(list@.take(j as int)),
                        decreases list.len() - j,
                    {
                        assert(list@.take(j + 1).drop_last() =~= list@.take(j as int));
                        self.index.insert(list[j].copy());
                        j = j + 1;
                    }
                    assert(list@.take(list@.len() as int) =~= list@);
                    proof { cache_lemma_concat(start, done, list@); }
                },
                None => {
                    assert(done + crate::index::list_at(cached@.names, names@[i as int]@) =~= done);
                },
            }
            i = i + 1;
        }
        assert(order.take(order.len() as int) =~= order);
        assert(is_name_order(cached@.names, order));
    }

    /// Replaces the package of a re-parsed module: the package of its path
    /// is removed, its symbols are inserted, and its record is stored again,
    /// so that an incremental update changes only what changed in the module
    /// (its record stays counted, and stays tied to its `go.mod` file for a
    /// later removal).
    pub fn apply_module_update(&mut self, module: &ParsedModule)
        requires
            old(self).wf(),
        ensures
            final(self).wf(),
            final(self)@.names == old(self)@.package_removed(module.path@).inserted_all(module.symbols@).names,
            final(self)@.packages == old(self)@.package_removed(module.path@).inserted_all(module.symbols@).packages,
            final(self)@.prefixes == old(self)@.package_removed(module.path@).inserted_all(module.symbols@).prefixes,
            final(self)@.modules == old(self)@.modules.insert(module.path@, final(self)@.modules[module.path@]),
            describes(final(self)@.modules[module.path@], *module),
    {
        self.index.remove_package(module.path.as_str());
        let ghost mid = self@;
        let mut i: usize = 0;
        while i < module.symbols.len()
            invariant
                i <= module.symbols@.len(),
                self.wf(),
                self@ == mid.inserted_all(module.symbols@.take(i as int)),
            decreases module.symbols.len() - i,
        {
            assert(module.symbols@.take(i + 1).drop_last() =~= module.symbols@.take(i as int));
            self.index.insert(module.symbols[i].copy());
            i = i + 1;
        }
        assert(module.symbols@.take(module.symbols@.len() as int) =~= module.symbols@);
        proof {
            lemma_inserted_all_parts(mid, mid, module.symbols@);
        }
        let info = module_info(module);
        self.index.record_module(info);
        assert(self@.modules =~= old(self)@.modules.insert(module.path@, info));
    }

    /// Removes the package with path `package`.
    pub fn remove_module(&mut self, package: &str)
        requires
            old(self).wf(),
        ensures
            final(self).wf(),
            final(self)@ == old(self)@.package_removed(package@),
    {
        self.index.remove_package(package);
    }

    /// Removes every module recorded as read from the `go.mod` file at
    /// `manifest`: their packages, their symbols and their records.
    pub fn remove_manifest(&mut self, manifest: &str)
        requires
            old(self).wf(),
        ensures
            final(self).wf(),
            exists|order: Seq<Seq<char>>| order.no_duplicates()
                && order.to_set() == modules_at(old(self)@.modules, manifest@)
                && final(self)@ == packages_removed_all(old(self)@, order),
            forall|p: Seq<char>| #[trigger] modules_at(old(self)@.modules, manifest@).contains(p)
                ==> !final(self)@.packages.contains_key(p) && !final(self)@.modules.contains_key(p),
            forall|n: Seq<char>, i: int| final(self)@.names.contains_key(n) && 0 <= i < final(self)@.names[n].len()
                ==> !modules_at(old(self)@.modules, manifest@).contains((#[trigger] final(self)@.names[n][i]).package@),
    {
        let ghost start = self@;
        let ghost wanted = modules_at(start.modules, manifest@);
        let infos = self.index.module_infos();
        let ghost paths = infos@.map_values(|m: ModuleInfo| m.path@);
        let mut chosen: Vec<String> = Vec::new();
        let ghost mut idx: Seq<int> = Seq::empty();
        let mut i: usize = 0;
        while i < infos.len()
            invariant
                i <= infos@.len(),
                paths == infos@.map_values(|m: ModuleInfo| m.path@),
                chosen@.len() == idx.len(),
                forall|k: int| 0 <= k < idx.len() ==> 0 <= #[trigger] idx[k] < i && chosen@[k]@ == paths[idx[k]]
                    && infos@[idx[k]].manifest@ == manifest@,
                forall|k1: int, k2: int| 0 <= k1 < k2 < idx.len() ==> #[trigger] idx[k1] < #[trigger] idx[k2],
                forall|j: int| 0 <= j < i && #[trigger] infos@[j].manifest@ == manifest@
                    ==> exists|k: int| 0 <= k < idx.len() && idx[k] == j,
            decreases infos.len() - i,
        {
            let ghost prev = idx;
            if is_text(&infos[i].manifest, manifest) {
                chosen.push(infos[i].path.clone());
                proof {
                    idx = idx.push(i as int);
                    assert(idx[idx.len() - 1] == i);
                }
            }
            proof {
                assert forall|j: int| 0 <= j < i + 1 && #[trigger] infos@[j].manifest@ == manifest@
                    implies exists|k: int| 0 <= k < idx.len() && idx[k] == j by {
                    if j == i {
                        assert(idx[idx.len() - 1] == i);
                    } else {
                        let k = choose|k: int| 0 <= k < prev.len() && prev[k] == j;
                        assert(idx[k] == prev[k]);
                    }
                }
            }
            i = i + 1;
        }
        let ghost order = string_views(chosen@);
        proof {
            assert forall|k1: int, k2: int| 0 <= k1 < order.len() && 0 <= k2 < order.len() && k1 != k2
                implies order[k1] != order[k2] by {
                if k1 < k2 {
                    assert(idx[k1] < idx[k2]);
                } else {
                    assert(idx[k2] < idx[k1]);
                }
                assert(paths[idx[k1]] != paths[idx[k2]]);
            }
            assert forall|p: Seq<char>| order.to_set().contains(p) == wanted.contains(p) by {
                if order.contains(p) {
                    let k = choose|k: int| 0 <= k < order.len() && order[k] == p;
                    let j = idx[k];
                    assert(start.modules[infos@[j].path@] == infos@[j]);
                    assert(paths.to_set().contains(paths[j]));
                }
                if wanted.contains(p) {
                    assert(paths.to_set().contains(p));
                    let j = choose|j: int| 0 <= j < paths.len() && paths[j] == p;
                    assert(start.modules[infos@[j].path@] == infos@[j]);
                    assert(infos@[j].manifest@ == manifest@);
                    let k = choose|k: int| 0 <= k < idx.len() && idx[k] == j;
                    assert(order[k] == p);
                }
            }
            assert(order.to_set() =~= wanted);
        }
        let mut k: usize = 0;
        while k < chosen.len()
            invariant
                k <= chosen@.len(),
                order == string_views(chosen@),
                self.wf(),
                self@ == packages_removed_all(start, order.take(k as int)),
            decreases chosen.len() - k,
        {
            assert(order.take(k + 1).drop_last() =~= order.take(k as int));
            assert(order.take(k + 1).last() == chosen@[k as int]@);
            self.index.remove_package(chosen[k].as_str());
            k = k + 1;
        }
        assert(order.take(order.len() as int) =~= order);
        proof {
            lemma_packages_removed_all(start, order);
            assert forall|p: Seq<char>| #[trigger] wanted.contains(p)
                implies !self@.packages.contains_key(p) && !self@.modules.contains_key(p) by {
                assert(order.to_set().contains(p));
            }
            assert forall|n: Seq<char>, i: int| self@.names.contains_key(n) && 0 <= i < self@.names[n].len()
                implies !wanted.contains((#[trigger] self@.names[n][i]).package@) by {
                if wanted.contains(self@.names[n][i].package@) {
                    assert(order.to_set().contains(self@.names[n][i].package@));
                }
            }
        }
    }
}

/// The modules recorded as read from the `go.mod` file `manifest`.
pub open spec fn modules_at(modules: Map<Seq<char>, ModuleInfo>, manifest: Seq<char>) -> Set<Seq<char>> {
    Set::new(|p: Seq<char>| modules.contains_key(p) && modules[p].manifest@ == manifest)
}

/// The index after removing the packages of `order`, in order.
pub open spec fn packages_removed_all(v: IndexView, order: Seq<Seq<char>>) -> IndexView
    decreases order.len(),
{
    if order.len() == 0 {
        v
    } else {
        packages_removed_all(v, order.drop_last()).package_removed(order.last())
    }
}

/// After removing the packages of `order`, no package, module record or
/// symbol of them is left, and everything else is as it was.
proof fn lemma_packages_removed_all(v: IndexView, order: Seq<Seq<char>>)
    ensures
        forall|q: Seq<char>| #[trigger] packages_removed_all(v, order).packages.contains_key(q)
            <==> v.packages.contains_key(q) && !order.contains(q),
        forall|q: Seq<char>| #[trigger] packages_removed_all(v, order).modules.contains_key(q)
            <==> v.modules.contains_key(q) && !order.contains(q),
        forall|n: Seq<char>, i: int| packages_removed_all(v, order).names.contains_key(n)
            && 0 <= i < packages_removed_all(v, order).names[n].len()
            ==> !order.contains((#[trigger] packages_removed_all(v, order).names[n][i]).package@),
    decreases order.len(),
{
    if order.len() > 0 {
        let rest = order.drop_last();
        let last = order.last();
        lemma_packages_removed_all(v, rest);
        let w = packages_removed_all(v, rest);
        let u = packages_removed_all(v, order);
        assert forall|q: Seq<char>| order.contains(q) == (rest.contains(q) || q == last) by {
            if order.contains(q) && q != last {
                let j = choose|j: int| 0 <= j < order.len() && order[j] == q;
                assert(rest[j] == q);
            }
            if rest.contains(q) {
                let j = choose|j: int| 0 <= j < rest.len() && rest[j] == q;
                assert(order[j] == q);
            }
            if q == last {
                assert(order[order.len() - 1] == q);
            }
        }
        assert forall|q: Seq<char>| #[trigger] u.packages.contains_key(q)
            <==> v.packages.contains_key(q) && !order.contains(q) by {
            assert(w.packages.contains_key(q) <==> v.packages.contains_key(q) && !rest.contains(q));
        }
        assert forall|q: Seq<char>| #[trigger] u.modules.contains_key(q)
            <==> v.modules.contains_key(q) && !order.contains(q) by {
            assert(w.modules.contains_key(q) <==> v.modules.contains_key(q) && !rest.contains(q));
        }
        assert forall|n: Seq<char>, i: int| u.names.contains_key(n) && 0 <= i < u.names[n].len()
            implies !order.contains((#[trigger] u.names[n][i]).package@) by {
            crate::index::lemma_without_package_members(w.names[n], last);
            let t = u.names[n][i];
            let j = choose|j: int| 0 <= j < w.names[n].len() && w.names[n][j] == t;
            assert(!rest.contains(w.names[n][j].package@));
        }
    }
}

/// Inserting symbols acts on names, packages and prefixes the same way
/// whatever the module records are.
proof fn lemma_inserted_all_parts(v: IndexView, w: IndexView, s: Seq<Symbol>)
    requires
        v.names == w.names,
        v.packages == w.packages,
        v.prefixes == w.prefixes,
    ensures
        v.inserted_all(s).names == w.inserted_all(s).names,
        v.inserted_all(s).packages == w.inserted_all(s).packages,
        v.inserted_all(s).prefixes == w.inserted_all(s).prefixes,
        w.inserted_all(s).modules == w.modules,
    decreases s.len(),
{
    if s.len() > 0 {
        lemma_inserted_all_parts(v, w, s.drop_last());
    }
}

/// Inserting `a + b` is inserting `a`, then `b`.
proof fn cache_lemma_concat(v: IndexView, a: Seq<Symbol>, b: Seq<Symbol>)
    ensures
        v.inserted_all(a + b) == v.inserted_all(a).inserted_all(b),
{
    crate::cache::lemma_inserted_all_concat(v, a, b);
}

} // verus!
