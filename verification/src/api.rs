//! What the HTTP API answers. Routing and serialization are the server's;
//! this module computes the bodies of the answers.

use vstd::prelude::*;
use std::sync::Arc;
use crate::index::{kind_label, optional_view, Symbol, copy_optional};
use crate::index::query::{reaches_fuzzy, smart_outcome, fuzzy_outcome, symbols_of, symbols_only, QueryEngine};
use crate::VERSION;

verus! {

/// State shared by the handlers.
pub struct ApiState {
    pub engine: Arc<QueryEngine>,
}

/// Search request parameters.
pub struct SearchRequest {
    pub q: String,
    pub limit: usize,
    pub fuzzy: bool,
}

/// The number of results a search returns when the request names none.
pub fn default_limit() -> (limit: usize)
    ensures
        limit == 10,
{
    10
}

/// A symbol as the API shows it.
pub struct SymbolDto {
    pub name: String,
    pub package: String,
    pub package_name: String,
    pub kind: String,
    pub import_path: String,
    pub signature: Option<String>,
    pub doc: Option<String>,
}

/// `dto` shows the symbol `s`.
pub open spec fn shows(dto: SymbolDto, s: Symbol) -> bool {
    &&& dto.name@ == s.name@
    &&& dto.package@ == s.package@
    &&& dto.package_name@ == s.package_name@
    &&& dto.kind@ == kind_label(s.kind)
    &&& dto.import_path@ == s.import_path@
    &&& optional_view(dto.signature) == optional_view(s.signature)
    &&& optional_view(dto.doc) == optional_view(s.doc)
}

/// `dtos` show the symbols of `symbols`, in order.
pub open spec fn show_all(dtos: Seq<SymbolDto>, symbols: Seq<Symbol>) -> bool {
    dtos.len() == symbols.len() && forall|i: int| 0 <= i < dtos.len() ==> shows(#[trigger] dtos[i], symbols[i])
}

impl SymbolDto {
    /// How the API shows a symbol.
    pub fn from_symbol(s: &Symbol) -> (dto: SymbolDto)
        ensures
            shows(dto, *s),
    {
        SymbolDto {
            name: s.name.clone(),
            package: s.package.clone(),
            package_name: s.package_name.clone(),
            kind: s.kind.label().to_owned(),
            import_path: s.import_path.clone(),
            signature: copy_optional(&s.signature),
            doc: copy_optional(&s.doc),
        }
    }
}

/// How the API shows a list of symbols.
pub fn show_symbols(symbols: &Vec<Symbol>) -> (dtos: Vec<SymbolDto>)
    ensures
        show_all(dtos@, symbols@),
{
    let mut dtos: Vec<SymbolDto> = Vec::new();
    let mut i: usize = 0;
    while i < symbols.len()
        invariant
            i <= symbols@.len(),
            dtos@.len() == i,
            forall|k: int| 0 <= k < i ==> shows(#[trigger] dtos@[k], symbols@[k]),
        decreases symbols.len() - i,
    {
        dtos.push(SymbolDto::from_symbol(&symbols[i]));
        i = i + 1;
    }
    dtos
}

/// The answer to a search.
pub struct SearchResponse {
    pub query: String,
    pub results: Vec<SymbolDto>,
    pub count: usize,
    pub elapsed_us: u64,
}

/// The symbols a search request finds: a fuzzy search when the request
/// asks for one, a smart search otherwise.
pub fn search_results(engine: &QueryEngine, request: &SearchRequest) -> (results: Vec<SymbolDto>)
    requires
        request.fuzzy || reaches_fuzzy(engine@, request.q@) ==> request.limit <= usize::MAX / 3,
    ensures
        request.fuzzy ==> exists|hits: Seq<(Symbol, u32)>| fuzzy_outcome(engine@, request.q@, request.limit as nat, hits)
            && show_all(results@, symbols_of(hits)),
        !request.fuzzy ==> exists|found: Seq<Symbol>| smart_outcome(engine@, request.q@, request.limit as nat, found)
            && show_all(results@, found),
{
    if request.fuzzy {
        let hits = engine.fuzzy_search(request.q.as_str(), request.limit);
        let symbols = symbols_only(&hits);
        let results = show_symbols(&symbols);
        assert(fuzzy_outcome(engine@, request.q@, request.limit as nat, hits@));
        results
    } else {
        let found = engine.smart_search(request.q.as_str(), request.limit);
        let results = show_symbols(&found);
        assert(smart_outcome(engine@, request.q@, request.limit as nat, found@));
        results
    }
}

/// The answer to a search of `query` that found `results` in `elapsed_us`
/// microseconds.
pub fn search_response(query: String, results: Vec<SymbolDto>, elapsed_us: u64) -> (response: SearchResponse)
    ensures
        response.query == query,
        response.results == results,
        response.count == results@.len(),
        response.elapsed_us == elapsed_us,
{
    let count = results.len();
    SearchResponse { query, results, count, elapsed_us }
}

/// The answer to a health check.
pub struct HealthResponse {
    pub status: String,
    pub version: String,
    pub uptime_seconds: u64,
}

/// The answer to a health check: `ok`, the library version, and an uptime
/// that is not tracked (always zero).
pub fn health_response() -> (response: HealthResponse)
    ensures
        response.status@ == "ok"@,
        response.version@ == VERSION@,
        response.uptime_seconds == 0,
{
    HealthResponse { status: "ok".to_owned(), version: VERSION.to_owned(), uptime_seconds: 0 }
}

/// A symbol as the serve command shows it, with its fuzzy score if any.
pub struct ScoredDto {
    pub dto: SymbolDto,
    pub score: Option<u32>,
}

/// What the serve command's search answers: for a fuzzy request, the hits
/// of a fuzzy search, each with its score; otherwise the symbols of a smart
/// search, without scores.
pub fn command_results(engine: &QueryEngine, q: &str, limit: usize, fuzzy: bool) -> (results: Vec<ScoredDto>)
    requires
        fuzzy || reaches_fuzzy(engine@, q@) ==> limit <= usize::MAX / 3,
    ensures
        fuzzy ==> exists|hits: Seq<(Symbol, u32)>| {
            &&& fuzzy_outcome(engine@, q@, limit as nat, hits)
            &&& results@.len() == hits.len()
            &&& forall|i: int| 0 <= i < hits.len()
                ==> shows(#[trigger] results@[i].dto, hits[i].0) && results@[i].score == Some(hits[i].1)
        },
        !fuzzy ==> exists|found: Seq<Symbol>| {
            &&& smart_outcome(engine@, q@, limit as nat, found)
            &&& results@.len() == found.len()
            &&& forall|i: int| 0 <= i < found.len()
                ==> shows(#[trigger] results@[i].dto, found[i]) && results@[i].score.is_none()
        },
{
    let mut results: Vec<ScoredDto> = Vec::new();
    if fuzzy {
        let hits = engine.fuzzy_search(q, limit);
        let mut i: usize = 0;
        while i < hits.len()
            invariant
                i <= hits@.len(),
                results@.len() == i,
                forall|k: int| 0 <= k < i
                    ==> shows(#[trigger] results@[k].dto, hits@[k].0) && results@[k].score == Some(hits@[k].1),
            decreases hits.len() - i,
        {
            results.push(ScoredDto { dto: SymbolDto::from_symbol(&hits[i].0), score: Some(hits[i].1) });
            i = i + 1;
        }
        assert(fuzzy_outcome(engine@, q@, limit as nat, hits@));
    } else {
        let found = engine.smart_search(q, limit);
        let mut i: usize = 0;
        while i < found.len()
            invariant
                i <= found@.len(),
                results@.len() == i,
                forall|k: int| 0 <= k < i ==> shows(#[trigger] results@[k].dto, found@[k]) && results@[k].score.is_none(),
            decreases found.len() - i,
        {
            results.push(ScoredDto { dto: SymbolDto::from_symbol(&found[i]), score: None });
            i = i + 1;
        }
        assert(smart_outcome(engine@, q@, limit as nat, found@));
    }
    results
}

} // verus!
