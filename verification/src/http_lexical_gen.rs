//! The lexical (BM25) search service as the compiler sees it: what to ask
//! of it, and how its answer turns into candidates. Sending the request is
//! left to the caller.

use vstd::prelude::*;
use vstd::string::*;
use crate::http_generator::{
    document_tokens, found_metadata, hits_to_ask, is_found_metadata, is_search_request,
    search_request, search_url, SearchRequest,
};
use crate::text::{append_decimal, decimal, join, joined, texts};
use crate::types::{
    all_well_formed, CandidateSpan, DerivedSignals, HardFilters, ScoreChannels, SpanRef,
};

verus! {

/// One hit of the lexical search service: a whole document.
#[derive(Debug, Clone)]
pub struct LexicalCandidate {
    pub doc_id: usize,
    pub path: String,
    pub hash: String,
    /// The BM25 score, in millionths.
    pub score: u32,
    pub size: usize,
}

/// The answer of the lexical search service.
#[derive(Debug, Clone)]
pub struct LexicalResponse {
    pub query: String,
    pub k: usize,
    pub results: Vec<LexicalCandidate>,
}

/// The candidate of a hit of the lexical search: the span `[0, size)` of
/// the version `hash`, with a token cost estimated from the size. Its score
/// is the lexical score, the other channels are zero.
pub open spec fn is_lexical_candidate(c: CandidateSpan, hit: LexicalCandidate, now: i64) -> bool {
    &&& c.span_ref.doc_version_id@ == hit.hash@
    &&& c.span_ref.span_id@ == "span_"@ + decimal(hit.doc_id as nat)
    &&& c.span_ref.char_start == 0
    &&& c.span_ref.char_end == hit.size
    &&& c.span_ref.token_cost == document_tokens(hit.size as nat)
    &&& c.scores == (ScoreChannels { semantic: 0, lexical: hit.score, structural: 0, graph: 0 })
    &&& c.embedding is None
    &&& c.text_preview@ == "Content from "@ + hit.path@
    &&& is_found_metadata(c.metadata, hit.path@, now)
    &&& c.base_score == 0
    &&& c.mmr_score == 0
    &&& c.well_formed()
}

/// The lexical generator: the search service at `service_url`.
#[derive(Debug, Clone)]
pub struct HttpLexicalGen {
    service_url: String,
}

impl HttpLexicalGen {
    /// The address of the service.
    pub closed spec fn base(&self) -> Seq<char> {
        self.service_url@
    }

    /// Creates the generator for the service at `service_url`.
    pub fn new(service_url: String) -> (gen: HttpLexicalGen)
        ensures
            gen.base() == service_url@,
    {
        HttpLexicalGen { service_url }
    }

    pub fn name(&self) -> (name: &'static str)
        ensures
            name@ == "http_lexical"@,
    {
        "http_lexical"
    }

    /// The address of the search endpoint: `{service_url}/search`.
    pub fn search_url(&self) -> (url: String)
        ensures
            url@ == self.base() + "/search"@,
    {
        search_url(&self.service_url)
    }

    /// The query text of the signals: the keywords joined by spaces or,
    /// where there are none, the intent.
    pub open spec fn query_of(signals: DerivedSignals) -> Seq<char> {
        if signals.keywords@.len() > 0 {
            joined(texts(signals.keywords@), " "@)
        } else {
            signals.intent@
        }
    }

    /// Extracts the query text from the signals.
    pub fn extract_query(signals: &DerivedSignals) -> (query: String)
        ensures
            query@ == Self::query_of(*signals),
    {
        if signals.keywords.len() > 0 {
            join(&signals.keywords, " ")
        } else {
            signals.intent.clone()
        }
    }

    /// The request to send for the signals; none where the query is empty,
    /// in which case the generator has no candidates.
    pub fn request(&self, signals: &DerivedSignals, filters: &HardFilters, top_k: usize) -> (request:
        Option<SearchRequest>)
        requires
            hits_to_ask(top_k as nat) <= usize::MAX,
        ensures
            is_search_request(request, Self::query_of(*signals), *filters, top_k as nat),
    {
        search_request(Self::extract_query(signals), filters, top_k)
    }

    /// Turns one hit into a candidate.
    pub fn to_candidate_span(&self, candidate: LexicalCandidate, now: i64) -> (c: CandidateSpan)
        ensures
            is_lexical_candidate(c, candidate, now),
    {
        let metadata = found_metadata(&candidate.path, now);
        let mut text_preview = "Content from ".to_owned();
        text_preview.append(candidate.path.as_str());
        let mut span_id = "span_".to_owned();
        append_decimal(&mut span_id, candidate.doc_id as u128);
        CandidateSpan {
            span_ref: SpanRef {
                doc_version_id: candidate.hash,
                span_id,
                char_start: 0,
                char_end: candidate.size,
                token_cost: if candidate.size / 4 > 10 {
                    candidate.size / 4
                } else {
                    10
                },
            },
            scores: ScoreChannels { semantic: 0, lexical: candidate.score, structural: 0, graph: 0 },
            embedding: None,
            text_preview,
            metadata,
            base_score: 0,
            mmr_score: 0,
        }
    }

    /// Turns the answer of the service into candidates, hit by hit.
    pub fn candidates(&self, response: LexicalResponse, now: i64) -> (out: Vec<CandidateSpan>)
        ensures
            out@.len() == response.results@.len(),
            forall|i: int|
                0 <= i < out@.len() ==> is_lexical_candidate(
                    #[trigger] out@[i],
                    response.results@[i],
                    now,
                ),
            all_well_formed(out@),
    {
        let mut out: Vec<CandidateSpan> = Vec::new();
        let ghost hits = response.results@;
        for hit in it: response.results.into_iter()
            invariant
                it.seq() == hits,
                out@.len() == it.index(),
                forall|i: int|
                    0 <= i < out@.len() ==> is_lexical_candidate(#[trigger] out@[i], hits[i], now),
        {
            let c = self.to_candidate_span(hit, now);
            out.push(c);
        }
        out
    }
}

} // verus!
