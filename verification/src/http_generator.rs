//! The semantic search service as the compiler sees it: what to ask of it,
//! and how its answer turns into candidates. Sending the request is left to
//! the caller.

use vstd::prelude::*;
use vstd::string::*;
use crate::text::{
    append_decimal, decimal, join, joined, occurs_in, second_part, split_second, text_contains,
    texts,
};
use crate::types::{
    all_well_formed, duplicate_strings, CandidateSpan, DerivedSignals, HardFilters,
    ScoreChannels, SourceType, SpanMetadata, SpanRef,
};

verus! {

/// Filters of a search request.
#[derive(Debug, Clone)]
pub struct SearchFilters {
    pub workstream: Option<String>,
    pub allowed_paths: Option<Vec<String>>,
}

/// A request to a search service.
#[derive(Debug, Clone)]
pub struct SearchRequest {
    pub query: String,
    pub k: usize,
    pub filters: Option<SearchFilters>,
}

/// One hit of the semantic search service. A hit on a chunk carries
/// `doc_version_id`, `span_id`, `char_start` and `char_end`; a hit on a whole
/// document carries `hash` and `size` in their place.
#[derive(Debug, Clone)]
pub struct SearchCandidate {
    pub chunk_id: usize,
    pub path: String,
    /// In millionths.
    pub score: u32,
    pub token_cost: usize,
    pub doc_version_id: Option<String>,
    pub span_id: Option<String>,
    pub char_start: Option<usize>,
    pub char_end: Option<usize>,
    pub abs_path: Option<String>,
    pub hash: Option<String>,
    pub size: Option<usize>,
}

/// The answer of the semantic search service.
#[derive(Debug, Clone)]
pub struct SearchResponse {
    pub candidates: Vec<SearchCandidate>,
    pub num_results: usize,
}

/// The source type of a document, from the directory in its path.
pub open spec fn source_type_of(path: Seq<char>) -> SourceType {
    if occurs_in(path, "03_workstreams/"@) {
        SourceType::Workstream
    } else if occurs_in(path, "02_knowledge/"@) {
        SourceType::Knowledge
    } else if occurs_in(path, "01_context/"@) {
        SourceType::Context
    } else {
        SourceType::Artifact
    }
}

/// The workstream of a document: for a path under `03_workstreams/`, the
/// second part of the path.
pub open spec fn workstream_of(path: Seq<char>) -> Option<Seq<char>> {
    if occurs_in(path, "03_workstreams/"@) {
        second_part(path, '/')
    } else {
        None
    }
}

/// Tells the source type of a document from its path.
pub fn source_type_from_path(path: &String) -> (source_type: SourceType)
    ensures
        source_type == source_type_of(path@),
{
    if text_contains(path, "03_workstreams/") {
        SourceType::Workstream
    } else if text_contains(path, "02_knowledge/") {
        SourceType::Knowledge
    } else if text_contains(path, "01_context/") {
        SourceType::Context
    } else {
        SourceType::Artifact
    }
}

/// Tells the workstream of a document from its path.
pub fn workstream_from_path(path: &String) -> (workstream: Option<String>)
    ensures
        match workstream {
            Some(w) => workstream_of(path@) == Some(w@),
            None => workstream_of(path@) is None,
        },
{
    if text_contains(path, "03_workstreams/") {
        split_second(path, '/')
    } else {
        None
    }
}

/// The number of hits to ask of a search service for a hint of `top_k`:
/// three times as many, to leave the selection a choice.
pub open spec fn hits_to_ask(top_k: nat) -> nat {
    top_k * 3
}

/// The filters of a search request: the first required workstream and the
/// allowed paths, where the hard filters name any.
pub open spec fn is_search_filters(filters: Option<SearchFilters>, hard: HardFilters) -> bool {
    if hard.allowed_paths@.len() == 0 && hard.required_workstreams@.len() == 0 {
        filters is None
    } else {
        &&& filters matches Some(f)
        &&& if hard.required_workstreams@.len() == 0 {
            f.workstream is None
        } else {
            f.workstream matches Some(w) && w@ == hard.required_workstreams@[0]@
        }
        &&& if hard.allowed_paths@.len() == 0 {
            f.allowed_paths is None
        } else {
            f.allowed_paths matches Some(paths) && texts(paths@) == texts(hard.allowed_paths@)
        }
    }
}

/// Builds the filters of a search request from the hard filters.
pub fn search_filters(hard: &HardFilters) -> (filters: Option<SearchFilters>)
    ensures
        is_search_filters(filters, *hard),
{
    if hard.allowed_paths.len() == 0 && hard.required_workstreams.len() == 0 {
        None
    } else {
        let workstream = if hard.required_workstreams.len() == 0 {
            None
        } else {
            Some(hard.required_workstreams[0].clone())
        };
        let allowed_paths = if hard.allowed_paths.len() == 0 {
            None
        } else {
            Some(duplicate_strings(&hard.allowed_paths))
        };
        Some(SearchFilters { workstream, allowed_paths })
    }
}

/// The request for a query: none for an empty query.
pub open spec fn is_search_request(
    request: Option<SearchRequest>,
    query: Seq<char>,
    hard: HardFilters,
    top_k: nat,
) -> bool {
    if query.len() == 0 {
        request is None
    } else {
        &&& request matches Some(r)
        &&& r.query@ == query
        &&& r.k == hits_to_ask(top_k)
        &&& is_search_filters(r.filters, hard)
    }
}

/// Builds the request for a query.
pub fn search_request(query: String, hard: &HardFilters, top_k: usize) -> (request: Option<
    SearchRequest,
>)
    requires
        hits_to_ask(top_k as nat) <= usize::MAX,
    ensures
        is_search_request(request, query@, *hard, top_k as nat),
{
    if query.as_str().is_empty() {
        None
    } else {
        Some(SearchRequest { query, k: top_k * 3, filters: search_filters(hard) })
    }
}

/// The address of the search endpoint of a service: `{base}/search`.
pub fn search_url(service_url: &String) -> (url: String)
    ensures
        url@ == service_url@ + "/search"@,
{
    let mut url = service_url.clone();
    url.append("/search");
    url
}

/// The size taken for a document that states none.
pub const DEFAULT_DOCUMENT_SIZE: usize = 1000;

/// The token cost of a document of `size` bytes: `max(10, size / 4)`.
pub open spec fn document_tokens(size: nat) -> nat {
    if size / 4 > 10 {
        size / 4
    } else {
        10
    }
}

/// The hit names a chunk: it carries all of `doc_version_id`, `span_id`,
/// `char_start` and `char_end`.
pub open spec fn names_chunk(hit: SearchCandidate) -> bool {
    hit.doc_version_id is Some && hit.span_id is Some && hit.char_start is Some
        && hit.char_end is Some
}

/// The span of a hit. A chunk gives its own span and token cost. A whole
/// document gives the span `[0, size)` of the version `hash`, named after
/// the chunk id, with a token cost estimated from the size.
pub open spec fn is_hit_span(span: SpanRef, hit: SearchCandidate) -> bool {
    if names_chunk(hit) {
        &&& span.doc_version_id@ == hit.doc_version_id->0@
        &&& span.span_id@ == hit.span_id->0@
        &&& span.char_start == hit.char_start->0
        &&& span.char_end == hit.char_end->0
        &&& span.token_cost == hit.token_cost
    } else {
        let size = match hit.size {
            Some(s) => s,
            None => DEFAULT_DOCUMENT_SIZE,
        };
        &&& span.doc_version_id@ == match hit.hash {
            Some(h) => h@,
            None => "unknown"@,
        }
        &&& span.span_id@ == "span_"@ + decimal(hit.chunk_id as nat)
        &&& span.char_start == 0
        &&& span.char_end == size
        &&& span.token_cost == document_tokens(size as nat)
    }
}

/// The metadata of a candidate that a search service found at `path`.
pub open spec fn is_found_metadata(metadata: SpanMetadata, path: Seq<char>, now: i64) -> bool {
    &&& metadata.filepath@ == path
    &&& match metadata.workstream {
        Some(w) => workstream_of(path) == Some(w@),
        None => workstream_of(path) is None,
    }
    &&& metadata.stage is None
    &&& metadata.section_title is None
    &&& metadata.created_at == now
    &&& metadata.recency_score == 900_000
    &&& metadata.source_type == source_type_of(path)
    &&& metadata.tags@.len() == 0
}

/// The candidate of a hit of the semantic search: its score is the
/// semantic score, the other channels are zero.
pub open spec fn is_semantic_candidate(c: CandidateSpan, hit: SearchCandidate, now: i64) -> bool {
    &&& is_hit_span(c.span_ref, hit)
    &&& c.scores == (ScoreChannels { semantic: hit.score, lexical: 0, structural: 0, graph: 0 })
    &&& c.embedding is None
    &&& c.text_preview@ == "Content from "@ + hit.path@
    &&& is_found_metadata(c.metadata, hit.path@, now)
    &&& c.base_score == 0
    &&& c.mmr_score == 0
    &&& c.well_formed()
}

/// Builds the metadata of a candidate found at `path`.
pub fn found_metadata(path: &String, now: i64) -> (metadata: SpanMetadata)
    ensures
        is_found_metadata(metadata, path@, now),
{
    SpanMetadata {
        filepath: path.clone(),
        workstream: workstream_from_path(path),
        stage: None,
        section_title: None,
        created_at: now,
        recency_score: 900_000,
        source_type: source_type_from_path(path),
        tags: Vec::new(),
    }
}

/// The semantic generator: the search service at `service_url`.
#[derive(Debug, Clone)]
pub struct HttpSemanticGen {
    service_url: String,
}

impl HttpSemanticGen {
    /// The address of the service.
    pub closed spec fn base(&self) -> Seq<char> {
        self.service_url@
    }

    /// Creates the generator for the service at `service_url`.
    pub fn new(service_url: String) -> (gen: HttpSemanticGen)
        ensures
            gen.base() == service_url@,
    {
        HttpSemanticGen { service_url }
    }

    pub fn name(&self) -> (name: &'static str)
        ensures
            name@ == "http_semantic"@,
    {
        "http_semantic"
    }

    /// The address of the search endpoint: `{service_url}/search`.
    pub fn search_url(&self) -> (url: String)
        ensures
            url@ == self.base() + "/search"@,
    {
        search_url(&self.service_url)
    }

    /// The query text of the signals: the intent or, where it is empty, the
    /// keywords joined by spaces.
    pub open spec fn query_of(signals: DerivedSignals) -> Seq<char> {
        if signals.intent@.len() > 0 {
            signals.intent@
        } else {
            joined(texts(signals.keywords@), " "@)
        }
    }

    /// Extracts the query text from the signals.
    pub fn extract_query(signals: &DerivedSignals) -> (query: String)
        ensures
            query@ == Self::query_of(*signals),
    {
        if !signals.intent.as_str().is_empty() {
            signals.intent.clone()
        } else {
            join(&signals.keywords, " ")
        }
    }

    /// The request to send for the signals; none where the query is empty,
    /// in which case the generator has no candidates.
    pub fn request(&self, signals: &DerivedSignals, filters: &HardFilters, top_k: usize) -> (request:
        Option<SearchRequest>)
        requires
            hits_to_ask(top_k as nat) <= usize::MAX,
        ensures
            is_search_request(request, Self::query_of(*signals), *filters, top_k as nat),
    {
        search_request(Self::extract_query(signals), filters, top_k)
    }

    /// Turns one hit into a candidate.
    pub fn to_candidate_span(&self, candidate: SearchCandidate, now: i64) -> (c: CandidateSpan)
        ensures
            is_semantic_candidate(c, candidate, now),
    {
        let metadata = found_metadata(&candidate.path, now);
        let mut text_preview = "Content from ".to_owned();
        text_preview.append(candidate.path.as_str());
        let span_ref = match (
            &candidate.doc_version_id,
            &candidate.span_id,
            candidate.char_start,
            candidate.char_end,
        ) {
            (Some(doc), Some(span), Some(start), Some(end)) => SpanRef {
                doc_version_id: doc.clone(),
                span_id: span.clone(),
                char_start: start,
                char_end: end,
                token_cost: candidate.token_cost,
            },
            _ => {
                let size = match candidate.size {
                    Some(s) => s,
                    None => DEFAULT_DOCUMENT_SIZE,
                };
                let mut span_id = "span_".to_owned();
                append_decimal(&mut span_id, candidate.chunk_id as u128);
                SpanRef {
                    doc_version_id: match &candidate.hash {
                        Some(h) => h.clone(),
                        None => "unknown".to_owned(),
                    },
                    span_id,
                    char_start: 0,
                    char_end: size,
                    token_cost: if size / 4 > 10 {
                        size / 4
                    } else {
                        10
                    },
                }
            },
        };
        CandidateSpan {
            span_ref,
            scores: ScoreChannels { semantic: candidate.score, lexical: 0, structural: 0, graph: 0 },
            embedding: None,
            text_preview,
            metadata,
            base_score: 0,
            mmr_score: 0,
        }
    }

    /// Turns the answer of the service into candidates, hit by hit.
    pub fn candidates(&self, response: SearchResponse, now: i64) -> (out: Vec<CandidateSpan>)
        ensures
            out@.len() == response.candidates@.len(),
            forall|i: int|
                0 <= i < out@.len() ==> is_semantic_candidate(
                    #[trigger] out@[i],
                    response.candidates@[i],
                    now,
                ),
            all_well_formed(out@),
    {
        let mut out: Vec<CandidateSpan> = Vec::new();
        let ghost hits = response.candidates@;
        for hit in it: response.candidates.into_iter()
            invariant
                it.seq() == hits,
                out@.len() == it.index(),
                forall|i: int|
                    0 <= i < out@.len() ==> is_semantic_candidate(#[trigger] out@[i], hits[i], now),
        {
            let c = self.to_candidate_span(hit, now);
            out.push(c);
        }
        out
    }
}

} // verus!
