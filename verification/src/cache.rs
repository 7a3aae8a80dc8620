//! What the on-disk cache stores and how the library decides whether a
//! cache can be used. Reading, writing and mapping the files is left to the
//! caller; this module turns an index into what is stored, turns what is
//! stored back into an index, and names the files.

use vstd::prelude::*;
use crate::index::{
    capped, lemma_inserted_all_valid, lemma_occurrences_push, list_at, occurrences, same_occurrences, symbol_count,
    IndexView, InvertedIndex, ModuleInfo, Symbol,
};
use crate::index::query::is_name_order;
use crate::index::tables::string_views;
use crate::paths::{join_path, joined};
use crate::text::{chars_of, string_of};
use crate::VERSION;

verus! {

/// The file that holds the serialized index.
pub const INDEX_CACHE_FILE: &'static str = "index.bin";

/// The file that holds the cache metadata.
pub const METADATA_FILE: &'static str = "metadata.json";

/// A cache directory for the index.
pub struct MmapCache {
    cache_dir: String,
}

impl MmapCache {
    /// A cache kept in `cache_dir` (the caller creates the directory).
    pub fn new(cache_dir: String) -> (cache: MmapCache)
        ensures
            cache.dir()@ == cache_dir@,
    {
        MmapCache { cache_dir }
    }

    /// The cache directory.
    pub closed spec fn dir(&self) -> String {
        self.cache_dir
    }

    /// The cache directory.
    pub fn cache_dir(&self) -> (dir: &String)
        ensures
            dir@ == self.dir()@,
    {
        &self.cache_dir
    }

    /// The path of the serialized index.
    pub fn index_path(&self) -> (path: String)
        ensures
            path@ == joined(self.dir()@, INDEX_CACHE_FILE@),
    {
        join_path(self.cache_dir.as_str(), INDEX_CACHE_FILE)
    }

    /// The path of the metadata file.
    pub fn metadata_path(&self) -> (path: String)
        ensures
            path@ == joined(self.dir()@, METADATA_FILE@),
    {
        join_path(self.cache_dir.as_str(), METADATA_FILE)
    }
}

/// What the metadata file records about a saved index.
#[derive(Debug, Clone)]
pub struct CacheMetadata {
    pub version: String,
    pub created_at: u64,
    pub symbol_count: usize,
    pub module_count: usize,
}

/// The metadata of `index` saved at `created_at` (seconds since the epoch)
/// by this version of the library.
pub fn metadata_for(index: &InvertedIndex, created_at: u64) -> (metadata: CacheMetadata)
    ensures
        metadata.version@ == VERSION@,
        metadata.created_at == created_at,
        metadata.symbol_count == capped(symbol_count(index@.names)),
        metadata.module_count == index@.modules.dom().len(),
{
    let stats = index.stats();
    CacheMetadata {
        version: VERSION.to_owned(),
        created_at,
        symbol_count: stats.total_symbols,
        module_count: stats.total_modules,
    }
}

/// Whether a cache described by `metadata` is usable at `now`: it was saved
/// by this version, not after `now` (a cache stamped in the future has no
/// age and is not trusted), and is at most `max_age_hours` whole hours old.
pub open spec fn is_fresh(metadata: CacheMetadata, now: u64, max_age_hours: u64) -> bool {
    &&& metadata.version@ == VERSION@
    &&& metadata.created_at <= now
    &&& (now - metadata.created_at) / 3600 <= max_age_hours
}

/// Whether the cache is usable at `now` (seconds since the epoch), given the
/// metadata read from it (`None` when it is missing or unreadable).
pub fn is_cache_valid(metadata: &Option<CacheMetadata>, now: u64, max_age_hours: u64) -> (valid: bool)
    ensures
        valid == (metadata.is_some() && is_fresh(metadata.unwrap(), now, max_age_hours)),
{
    match metadata {
        None => false,
        Some(m) => {
            let current = VERSION.to_owned();
            if m.version != current {
                return false;
            }
            if m.created_at > now {
                return false;
            }
            let age_hours = (now - m.created_at) / 3600;
            age_hours <= max_age_hours
        },
    }
}

/// Statistics of a saved cache.
#[derive(Debug, Clone)]
pub struct CacheStats {
    pub symbol_count: usize,
    pub module_count: usize,
    pub file_size_bytes: u64,
    pub created_at: u64,
}

/// The statistics of a cache with the given metadata and index file size.
pub fn cache_stats(metadata: &CacheMetadata, file_size_bytes: u64) -> (stats: CacheStats)
    ensures
        stats.symbol_count == metadata.symbol_count,
        stats.module_count == metadata.module_count,
        stats.file_size_bytes == file_size_bytes,
        stats.created_at == metadata.created_at,
{
    CacheStats {
        symbol_count: metadata.symbol_count,
        module_count: metadata.module_count,
        file_size_bytes,
        created_at: metadata.created_at,
    }
}

// ---------------------------------------------------------------------------
// The stored form of the index

/// The lists of the names of `order`, one after the other.
pub open spec fn lists_in_order(names: Map<Seq<char>, Seq<Symbol>>, order: Seq<Seq<char>>) -> Seq<Symbol>
    decreases order.len(),
{
    if order.len() == 0 {
        Seq::empty()
    } else {
        lists_in_order(names, order.drop_last()) + list_at(names, order.last())
    }
}

/// `infos` lists every module record of `modules` once.
pub open spec fn lists_modules(modules: Map<Seq<char>, ModuleInfo>, infos: Seq<ModuleInfo>) -> bool {
    &&& infos.map_values(|m: ModuleInfo| m.path@).no_duplicates()
    &&& infos.map_values(|m: ModuleInfo| m.path@).to_set() == modules.dom()
    &&& forall|i: int| 0 <= i < infos.len() ==> modules[(#[trigger] infos[i]).path@] == infos[i]
}

/// The index as it is stored: every symbol, name by name, and every module
/// record.
pub struct SerializedIndex {
    pub symbols: Vec<Symbol>,
    pub modules: Vec<ModuleInfo>,
}

impl SerializedIndex {
    /// The stored form of `index`: the symbols of each name in the order
    /// the index lists its names, and its module records.
    pub fn from_index(index: &InvertedIndex) -> (stored: SerializedIndex)
        requires
            index.wf(),
        ensures
            exists|order: Seq<Seq<char>>| is_name_order(index@.names, order)
                && stored.symbols@ == lists_in_order(index@.names, order),
            lists_modules(index@.modules, stored.modules@),
    {
        let names = index.all_symbol_names();
        let ghost order = string_views(names@);
        let mut symbols: Vec<Symbol> = Vec::new();
        let mut i: usize = 0;
        while i < names.len()
            invariant
                i <= names@.len(),
                order == string_views(names@),
                symbols@ == lists_in_order(index@.names, order.take(i as int)),
            decreases names.len() - i,
        {
            assert(order.take(i + 1).drop_last() =~= order.take(i as int));
            assert(order.take(i + 1).last() == names@[i as int]@);
            let ghost before = symbols@;
            match index.get_by_name(names[i].as_str()) {
                Some(list) => {
                    let mut j: usize = 0;
                    while j < list.len()
                        invariant
                            j <= list@.len(),
                            symbols@ == before + list@.take(j as int),
                        decreases list.len() - j,
                    {
                        symbols.push(list[j].copy());
                        j = j + 1;
                        assert(symbols@ =~= before + list@.take(j as int));
                    }
                    assert(list@.take(list@.len() as int) =~= list@);
                },
                None => {
                    assert(symbols@ =~= before + list_at(index@.names, names@[i as int]@));
                },
            }
            i = i + 1;
        }
        assert(order.take(order.len() as int) =~= order);
        assert(is_name_order(index@.names, order));
        SerializedIndex { symbols, modules: index.module_infos() }
    }

    /// The index rebuilt from its stored form: the symbols inserted in order,
    /// then the module records.
    pub fn to_index(&self) -> (index: InvertedIndex)
        ensures
            index.wf(),
            index@ == IndexView::empty().inserted_all(self.symbols@).recorded_all(self.modules@),
    {
        let mut index = InvertedIndex::new();
        let mut i: usize = 0;
        while i < self.symbols.len()
            invariant
                i <= self.symbols@.len(),
                index.wf(),
                index@ == IndexView::empty().inserted_all(self.symbols@.take(i as int)),
            decreases self.symbols.len() - i,
        {
            assert(self.symbols@.take(i + 1).drop_last() =~= self.symbols@.take(i as int));
            index.insert(self.symbols[i].copy());
            i = i + 1;
        }
        assert(self.symbols@.take(self.symbols@.len() as int) =~= self.symbols@);
        let ghost base = index@;
        let mut k: usize = 0;
        while k < self.modules.len()
            invariant
                k <= self.modules@.len(),
                index.wf(),
                index@ == base.recorded_all(self.modules@.take(k as int)),
            decreases self.modules.len() - k,
        {
            assert(self.modules@.take(k + 1).drop_last() =~= self.modules@.take(k as int));
            index.record_module(self.modules[k].copy());
            k = k + 1;
        }
        assert(self.modules@.take(self.modules@.len() as int) =~= self.modules@);
        index
    }
}

// ---------------------------------------------------------------------------
// Module files

/// The character that stands for `c` in a module file name: `_` for a `/`
/// or a `\`, `c` itself otherwise.
pub open spec fn file_name_char(c: char) -> char {
    if c == '/' || c == '\\' { '_' } else { c }
}

/// The name under which a module's data is cached: its path with each `/`
/// and `\` replaced by `_`, then `.bin`. Paths that differ only there share
/// a name.
pub open spec fn module_file_name(module: Seq<char>) -> Seq<char> {
    module.map_values(|c: char| file_name_char(c)) + ".bin"@
}

/// A module path with each `/` and `\` replaced by `_`.
fn flatten_module(module: &str) -> (name: Vec<char>)
    ensures
        name@ == module@.map_values(|c: char| file_name_char(c)),
{
    let m = chars_of(module);
    let mut r: Vec<char> = Vec::new();
    let mut i: usize = 0;
    while i < m.len()
        invariant
            i <= m@.len(),
            m@ == module@,
            r@ == m@.take(i as int).map_values(|c: char| file_name_char(c)),
        decreases m.len() - i,
    {
        let c = m[i];
        if c == '/' || c == '\\' {
            r.push('_');
        } else {
            r.push(c);
        }
        i = i + 1;
        assert(r@ =~= m@.take(i as int).map_values(|c: char| file_name_char(c)));
    }
    assert(m@.take(m@.len() as int) =~= m@);
    r
}

/// A cache directory for module data.
pub struct ModuleCache {
    cache_dir: String,
}

impl ModuleCache {
    /// A cache kept in `cache_dir` (the caller creates the directory).
    pub fn new(cache_dir: String) -> (cache: ModuleCache)
        ensures
            cache.dir()@ == cache_dir@,
    {
        ModuleCache { cache_dir }
    }

    /// The cache directory.
    pub closed spec fn dir(&self) -> String {
        self.cache_dir
    }

    /// The file that holds the cached data of `module`.
    pub fn module_file(&self, module: &str) -> (path: String)
        ensures
            path@ == joined(self.dir()@, module_file_name(module@)),
    {
        let m = flatten_module(module);
        let name = crate::text::concat(&m, &chars_of(".bin"));
        let name = string_of(name.as_slice());
        join_path(self.cache_dir.as_str(), name.as_str())
    }
}

// ---------------------------------------------------------------------------
// Saving and loading give the index back

/// Inserting `a + b` is inserting `a`, then `b`.
pub proof fn lemma_inserted_all_concat(v: IndexView, a: Seq<Symbol>, b: Seq<Symbol>)
    ensures
        v.inserted_all(a + b) == v.inserted_all(a).inserted_all(b),
    decreases b.len(),
{
    if b.len() == 0 {
        assert(a + b =~= a);
    } else {
        assert((a + b).drop_last() =~= a + b.drop_last());
        assert((a + b).last() == b.last());
        lemma_inserted_all_concat(v, a, b.drop_last());
    }
}

/// Inserting symbols that all carry a name the index does not hold yet
/// makes them the list of that name.
proof fn lemma_inserted_all_one_name(v: IndexView, n: Seq<char>, list: Seq<Symbol>)
    requires
        !v.names.contains_key(n),
        forall|k: int| 0 <= k < list.len() ==> (#[trigger] list[k]).name@ == n,
    ensures
        v.inserted_all(list).names == if list.len() == 0 { v.names } else { v.names.insert(n, list) },
    decreases list.len(),
{
    if list.len() > 0 {
        let rest = list.drop_last();
        lemma_inserted_all_one_name(v, n, rest);
        let prev = v.inserted_all(rest).names;
        assert(list_at(prev, n) =~= rest);
        assert(rest.push(list.last()) =~= list);
        assert(list.last() == list[list.len() - 1]);
        assert(v.inserted_all(list).names =~= v.names.insert(n, list));
    }
}

/// Inserting symbols leaves the module records alone.
proof fn lemma_inserted_all_modules(v: IndexView, s: Seq<Symbol>)
    ensures
        v.inserted_all(s).modules == v.modules,
    decreases s.len(),
{
    if s.len() > 0 {
        lemma_inserted_all_modules(v, s.drop_last());
    }
}

/// Recording modules leaves the symbol lists alone.
proof fn lemma_recorded_all_names(v: IndexView, infos: Seq<ModuleInfo>)
    ensures
        v.recorded_all(infos).names == v.names,
        v.recorded_all(infos).packages == v.packages,
    decreases infos.len(),
{
    if infos.len() > 0 {
        lemma_recorded_all_names(v, infos.drop_last());
    }
}

/// After inserting symbols, a package is held exactly when it was held
/// before or one of the symbols belongs to it.
proof fn lemma_inserted_all_packages(v: IndexView, s: Seq<Symbol>, p: Seq<char>)
    ensures
        v.inserted_all(s).packages.contains_key(p)
            <==> v.packages.contains_key(p) || exists|k: int| 0 <= k < s.len() && (#[trigger] s[k]).package@ == p,
    decreases s.len(),
{
    if s.len() > 0 {
        let rest = s.drop_last();
        lemma_inserted_all_packages(v, rest, p);
        if exists|k: int| 0 <= k < s.len() && (#[trigger] s[k]).package@ == p {
            let k = choose|k: int| 0 <= k < s.len() && (#[trigger] s[k]).package@ == p;
            if k < rest.len() {
                assert(rest[k] == s[k]);
            }
        }
        if exists|k: int| 0 <= k < rest.len() && (#[trigger] rest[k]).package@ == p {
            let k = choose|k: int| 0 <= k < rest.len() && (#[trigger] rest[k]).package@ == p;
            assert(s[k] == rest[k]);
        }
        if s.last().package@ == p {
            assert(s[s.len() - 1].package@ == p);
        }
    }
}

/// The symbols the lists of `order` hold are those of the lists of its names.
proof fn lemma_lists_in_order_members(names: Map<Seq<char>, Seq<Symbol>>, order: Seq<Seq<char>>, t: Symbol)
    ensures
        lists_in_order(names, order).contains(t)
            <==> exists|i: int| 0 <= i < order.len() && list_at(names, #[trigger] order[i]).contains(t),
    decreases order.len(),
{
    if order.len() > 0 {
        let rest = order.drop_last();
        lemma_lists_in_order_members(names, rest, t);
        let a = lists_in_order(names, rest);
        let b = list_at(names, order.last());
        let all = lists_in_order(names, order);
        assert(all == a + b);
        if all.contains(t) {
            let k = choose|k: int| 0 <= k < all.len() && all[k] == t;
            if k < a.len() {
                assert(a[k] == t);
                let i = choose|i: int| 0 <= i < rest.len() && list_at(names, #[trigger] rest[i]).contains(t);
                assert(order[i] == rest[i]);
            } else {
                assert(b[k - a.len()] == t);
                assert(order[order.len() - 1] == order.last());
            }
        }
        if exists|i: int| 0 <= i < order.len() && list_at(names, #[trigger] order[i]).contains(t) {
            let i = choose|i: int| 0 <= i < order.len() && list_at(names, #[trigger] order[i]).contains(t);
            if i < rest.len() {
                assert(rest[i] == order[i]);
                let k = choose|k: int| 0 <= k < a.len() && a[k] == t;
                assert(all[k] == t);
            } else {
                let k = choose|k: int| 0 <= k < b.len() && b[k] == t;
                assert(all[a.len() + k] == t);
            }
        }
    }
}

/// Inserting the lists of the first `k` names of `order` gives those names
/// their lists.
proof fn lemma_lists_in_order_names(v: IndexView, order: Seq<Seq<char>>, k: int)
    requires
        v.valid(),
        is_name_order(v.names, order),
        0 <= k <= order.len(),
    ensures
        IndexView::empty().inserted_all(lists_in_order(v.names, order.take(k))).names
            == Map::new(|m: Seq<char>| v.names.contains_key(m) && order.take(k).contains(m), |m: Seq<char>| v.names[m]),
    decreases k,
{
    let target = Map::new(|m: Seq<char>| v.names.contains_key(m) && order.take(k).contains(m), |m: Seq<char>| v.names[m]);
    if k == 0 {
        assert(lists_in_order(v.names, order.take(0)) =~= Seq::empty());
        assert(IndexView::empty().inserted_all(Seq::empty()) == IndexView::empty());
        assert(target =~= Map::empty());
    } else {
        lemma_lists_in_order_names(v, order, k - 1);
        let before = lists_in_order(v.names, order.take(k - 1));
        let w = IndexView::empty().inserted_all(before);
        let n = order[k - 1];
        assert(order.take(k).drop_last() =~= order.take(k - 1));
        assert(order.take(k).last() == n);
        assert(order.to_set().contains(n));
        assert(v.names.contains_key(n));
        let list = v.names[n];
        assert(list_at(v.names, n) == list);
        lemma_inserted_all_concat(IndexView::empty(), before, list);
        let prev = order.take(k - 1);
        let cur = order.take(k);
        assert(!prev.contains(n)) by {
            if prev.contains(n) {
                let j = choose|j: int| 0 <= j < prev.len() && prev[j] == n;
                assert(order[j] == order[k - 1]);
            }
        }
        assert(!w.names.contains_key(n));
        assert forall|i: int| 0 <= i < list.len() implies (#[trigger] list[i]).name@ == n by {
            assert(v.names[n][i].name@ == n);
        }
        lemma_inserted_all_one_name(w, n, list);
        assert forall|m: Seq<char>| cur.contains(m) == (prev.contains(m) || m == n) by {
            if cur.contains(m) && m != n {
                let j = choose|j: int| 0 <= j < cur.len() && cur[j] == m;
                assert(prev[j] == m);
            }
            if prev.contains(m) {
                let j = choose|j: int| 0 <= j < prev.len() && prev[j] == m;
                assert(cur[j] == m);
            }
            if m == n {
                assert(cur[k - 1] == m);
            }
        }
        assert(w.names.insert(n, list) =~= target);
    }
}

/// Recording the modules of `infos` one by one records them all.
proof fn lemma_recorded_all_modules(v: IndexView, modules: Map<Seq<char>, ModuleInfo>, infos: Seq<ModuleInfo>, k: int)
    requires
        v.modules == Map::<Seq<char>, ModuleInfo>::empty(),
        lists_modules(modules, infos),
        0 <= k <= infos.len(),
    ensures
        v.recorded_all(infos.take(k)).modules == Map::new(
            |p: Seq<char>| infos.take(k).map_values(|m: ModuleInfo| m.path@).contains(p),
            |p: Seq<char>| modules[p],
        ),
    decreases k,
{
    let paths = infos.take(k).map_values(|m: ModuleInfo| m.path@);
    if k == 0 {
        assert(infos.take(0) =~= Seq::empty());
        assert(v.recorded_all(Seq::empty()) == v);
        assert(Map::new(|p: Seq<char>| paths.contains(p), |p: Seq<char>| modules[p]) =~= Map::empty());
    } else {
        lemma_recorded_all_modules(v, modules, infos, k - 1);
        assert(infos.take(k).drop_last() =~= infos.take(k - 1));
        assert(infos.take(k).last() == infos[k - 1]);
        let x = infos[k - 1];
        assert(modules[x.path@] == x);
        let prev_paths = infos.take(k - 1).map_values(|m: ModuleInfo| m.path@);
        assert(paths =~= prev_paths.push(x.path@));
        assert forall|p: Seq<char>| paths.contains(p) == (prev_paths.contains(p) || p == x.path@) by {
            if paths.contains(p) && p != x.path@ {
                let j = choose|j: int| 0 <= j < paths.len() && paths[j] == p;
                assert(prev_paths[j] == p);
            }
            if prev_paths.contains(p) {
                let j = choose|j: int| 0 <= j < prev_paths.len() && prev_paths[j] == p;
                assert(paths[j] == p);
            }
            if p == x.path@ {
                assert(paths[k - 1] == p);
            }
        }
        assert(v.recorded_all(infos.take(k)).modules =~= Map::new(
            |p: Seq<char>| paths.contains(p),
            |p: Seq<char>| modules[p],
        ));
    }
}

/// Counting in two lists one after the other.
proof fn lemma_occurrences_concat(a: Seq<Symbol>, b: Seq<Symbol>, t: Symbol)
    ensures
        occurrences(a + b, t) == occurrences(a, t) + occurrences(b, t),
    decreases b.len(),
{
    if b.len() > 0 {
        lemma_occurrences_concat(a, b.drop_last(), t);
        assert((a + b).drop_last() =~= a + b.drop_last());
        assert((a + b).last() == b.last());
    } else {
        assert(a + b =~= a);
    }
}

/// A symbol that is not in a list occurs there zero times.
proof fn lemma_occurrences_none(s: Seq<Symbol>, t: Symbol)
    requires
        forall|k: int| 0 <= k < s.len() ==> s[k] != t,
    ensures
        occurrences(s, t) == 0,
    decreases s.len(),
{
    if s.len() > 0 {
        lemma_occurrences_none(s.drop_last(), t);
        assert(s.last() == s[s.len() - 1]);
    }
}

/// Occurrences are the counts of the multiset of a list.
proof fn lemma_occurrences_count(s: Seq<Symbol>, t: Symbol)
    ensures
        occurrences(s, t) == s.to_multiset().count(t),
    decreases s.len(),
{
    broadcast use vstd::seq_lib::group_to_multiset_ensures;
    if s.len() > 0 {
        lemma_occurrences_count(s.drop_last(), t);
        assert(s == s.drop_last().push(s.last()));
    } else {
        assert(s.to_multiset().len() == 0);
    }
}

/// Inserting symbols adds their occurrences to their packages' lists.
proof fn lemma_occurrences_inserted_all(v: IndexView, s: Seq<Symbol>, t: Symbol)
    ensures
        occurrences(list_at(v.inserted_all(s).packages, t.package@), t)
            == occurrences(list_at(v.packages, t.package@), t) + occurrences(s, t),
    decreases s.len(),
{
    if s.len() > 0 {
        let rest = s.drop_last();
        let x = s.last();
        lemma_occurrences_inserted_all(v, rest, t);
        let before = v.inserted_all(rest);
        if x.package@ == t.package@ {
            lemma_occurrences_push(list_at(before.packages, x.package@), x, t);
        } else {
            assert(x != t);
        }
    }
}

/// A symbol occurs in the lists of `order` as often as in the list of its
/// name when `order` holds its name, and not at all otherwise.
proof fn lemma_occurrences_in_order(names: Map<Seq<char>, Seq<Symbol>>, order: Seq<Seq<char>>, t: Symbol)
    requires
        order.no_duplicates(),
        forall|n: Seq<char>, i: int| names.contains_key(n) && 0 <= i < names[n].len() ==> (#[trigger] names[n][i]).name@ == n,
    ensures
        occurrences(lists_in_order(names, order), t)
            == if order.contains(t.name@) { occurrences(list_at(names, t.name@), t) } else { 0 },
    decreases order.len(),
{
    if order.len() > 0 {
        let rest = order.drop_last();
        let last = order.last();
        assert(rest.no_duplicates()) by {
            assert forall|a: int, b: int| 0 <= a < rest.len() && 0 <= b < rest.len() && a != b implies rest[a] != rest[b] by {
                assert(rest[a] == order[a] && rest[b] == order[b]);
            }
        }
        lemma_occurrences_in_order(names, rest, t);
        lemma_occurrences_concat(lists_in_order(names, rest), list_at(names, last), t);
        assert(order.contains(t.name@) == (rest.contains(t.name@) || last == t.name@)) by {
            if order.contains(t.name@) && last != t.name@ {
                let j = choose|j: int| 0 <= j < order.len() && order[j] == t.name@;
                assert(rest[j] == t.name@);
            }
            if rest.contains(t.name@) {
                let j = choose|j: int| 0 <= j < rest.len() && rest[j] == t.name@;
                assert(order[j] == t.name@);
            }
            if last == t.name@ {
                assert(order[order.len() - 1] == last);
            }
        }
        if last == t.name@ {
            assert(!rest.contains(last)) by {
                if rest.contains(last) {
                    let j = choose|j: int| 0 <= j < rest.len() && rest[j] == last;
                    assert(order[j] == order[order.len() - 1]);
                }
            }
        } else {
            assert forall|k: int| 0 <= k < list_at(names, last).len() implies list_at(names, last)[k] != t by {
                assert(names[last][k].name@ == last);
            }
            lemma_occurrences_none(list_at(names, last), t);
        }
    }
}

/// Saving an index and loading it back gives back its symbols name by name
/// (each list in its order), its packages, each package's symbols up to
/// their order, and its module records.
pub proof fn law_stored_index_round_trip(v: IndexView, order: Seq<Seq<char>>, infos: Seq<ModuleInfo>)
    requires
        v.valid(),
        is_name_order(v.names, order),
        lists_modules(v.modules, infos),
    ensures
        IndexView::empty().inserted_all(lists_in_order(v.names, order)).recorded_all(infos).names == v.names,
        IndexView::empty().inserted_all(lists_in_order(v.names, order)).recorded_all(infos).packages.dom()
            == v.packages.dom(),
        IndexView::empty().inserted_all(lists_in_order(v.names, order)).recorded_all(infos).modules == v.modules,
        forall|p: Seq<char>| #[trigger] list_at(
            IndexView::empty().inserted_all(lists_in_order(v.names, order)).recorded_all(infos).packages,
            p,
        ).to_multiset() == list_at(v.packages, p).to_multiset(),
{
    let w = IndexView::empty().inserted_all(lists_in_order(v.names, order));
    let all = lists_in_order(v.names, order);
    lemma_recorded_all_names(w, infos);
    lemma_inserted_all_valid(IndexView::empty(), all);
    assert forall|p: Seq<char>| #[trigger] list_at(w.packages, p).to_multiset() == list_at(v.packages, p).to_multiset() by {
        assert forall|t: Symbol| list_at(w.packages, p).to_multiset().count(t) == list_at(v.packages, p).to_multiset().count(t) by {
            lemma_occurrences_count(list_at(w.packages, p), t);
            lemma_occurrences_count(list_at(v.packages, p), t);
            if t.package@ == p {
                lemma_occurrences_inserted_all(IndexView::empty(), all, t);
                assert(list_at(IndexView::empty().packages, p) =~= Seq::<Symbol>::empty());
                lemma_occurrences_in_order(v.names, order, t);
                assert(same_occurrences(v, t));
                if !order.contains(t.name@) {
                    assert(!v.names.contains_key(t.name@)) by {
                        if v.names.contains_key(t.name@) {
                            assert(order.to_set().contains(t.name@));
                        }
                    }
                    assert(list_at(v.names, t.name@) =~= Seq::<Symbol>::empty());
                }
            } else {
                assert forall|k: int| 0 <= k < list_at(w.packages, p).len() implies list_at(w.packages, p)[k] != t by {
                    assert(w.packages[p][k].package@ == p);
                }
                lemma_occurrences_none(list_at(w.packages, p), t);
                assert forall|k: int| 0 <= k < list_at(v.packages, p).len() implies list_at(v.packages, p)[k] != t by {
                    assert(v.packages[p][k].package@ == p);
                }
                lemma_occurrences_none(list_at(v.packages, p), t);
            }
        }
        assert(list_at(w.packages, p).to_multiset() =~= list_at(v.packages, p).to_multiset());
    }
    assert forall|p: Seq<char>| #[trigger] w.packages.contains_key(p) <==> v.packages.contains_key(p) by {
        lemma_inserted_all_packages(IndexView::empty(), all, p);
        if w.packages.contains_key(p) {
            let k = choose|k: int| 0 <= k < all.len() && (#[trigger] all[k]).package@ == p;
            let t = all[k];
            lemma_lists_in_order_members(v.names, order, t);
            let i = choose|i: int| 0 <= i < order.len() && list_at(v.names, #[trigger] order[i]).contains(t);
            let n = order[i];
            let j = choose|j: int| 0 <= j < list_at(v.names, n).len() && list_at(v.names, n)[j] == t;
            assert(v.names.contains_key(n));
            assert(crate::index::listed_in_package(v.packages, v.names[n][j]));
        }
        if v.packages.contains_key(p) {
            let t = v.packages[p][0];
            assert(crate::index::listed_by_name(v.names, v.packages[p][0]));
            assert(order.to_set().contains(t.name@));
            let i = choose|i: int| 0 <= i < order.len() && order[i] == t.name@;
            assert(list_at(v.names, order[i]).contains(t));
            lemma_lists_in_order_members(v.names, order, t);
            let k = choose|k: int| 0 <= k < all.len() && all[k] == t;
            assert(all[k].package@ == p);
        }
    }
    assert(w.packages.dom() =~= v.packages.dom());
    lemma_lists_in_order_names(v, order, order.len() as int);
    assert(order.take(order.len() as int) =~= order);
    assert(w.names =~= v.names) by {
        assert forall|m: Seq<char>| v.names.contains_key(m) implies order.contains(m) by {
            assert(order.to_set().contains(m));
        }
    }
    lemma_recorded_all_names(w, infos);
    lemma_inserted_all_modules(IndexView::empty(), lists_in_order(v.names, order));
    lemma_recorded_all_modules(w, v.modules, infos, infos.len() as int);
    assert(infos.take(infos.len() as int) =~= infos);
    let paths = infos.map_values(|m: ModuleInfo| m.path@);
    assert(w.recorded_all(infos).modules =~= v.modules) by {
        assert forall|p: Seq<char>| paths.contains(p) == v.modules.contains_key(p) by {
            assert(paths.to_set().contains(p) == paths.contains(p));
        }
    }
}

} // verus!
