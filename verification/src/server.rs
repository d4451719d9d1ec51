//! The compile endpoint as the compiler sees it: the shape of its requests
//! and answers, and how a request over HTTP turns into a compile request.
//! Serving the endpoint is left to the caller.

use vstd::prelude::*;
use vstd::string::*;
use crate::context_engine::CompileError;
use crate::types::{
    CompileRequest, HardFilters, QuerySignal, ScoreWeights, SoftPreferences,
};

verus! {

/// A compile request as it comes over HTTP.
#[derive(Debug, Clone)]
pub struct CompileRequestHttp {
    pub intent: String,
    pub budget_tokens: usize,
    /// Shorthand for the workstream to search in.
    pub workstream: Option<String>,
    pub session_id: Option<String>,
    pub user_id: Option<String>,
    /// Explanations are given unless this is `false`.
    pub explain: Option<bool>,
    pub prefer_stages: Vec<String>,
}

/// The answer to a request that failed.
#[derive(Debug, Clone)]
pub struct ErrorResponse {
    pub error: String,
    pub details: Option<String>,
}

/// The answer of the health endpoint.
#[derive(Debug, Clone)]
pub struct HealthResponse {
    pub status: String,
    pub service: String,
    pub version: String,
}

/// The hard filters of a request over HTTP. A workstream allows the paths
/// under `03_workstreams/{workstream}/` and is required; without one there
/// are no filters.
pub open spec fn is_http_filters(filters: HardFilters, workstream: Option<String>) -> bool {
    &&& filters.excluded_paths@.len() == 0
    &&& filters.max_doc_age_days is None
    &&& match workstream {
        Some(ws) => {
            &&& filters.allowed_paths@.len() == 1
            &&& filters.allowed_paths@[0]@ == "03_workstreams/"@ + ws@ + "/"@
            &&& filters.required_workstreams@.len() == 1
            &&& filters.required_workstreams@[0]@ == ws@
        },
        None => filters.allowed_paths@.len() == 0 && filters.required_workstreams@.len() == 0,
    }
}

/// The compile request of a request over HTTP: the intent is its only
/// query signal, the preferences are the defaults with the preferred stages
/// of the request, and explanations are given unless the request declines
/// them.
pub open spec fn is_compile_request(req: CompileRequest, http: CompileRequestHttp) -> bool {
    &&& req.intent == http.intent
    &&& req.task_id is None
    &&& req.session_id == http.session_id
    &&& req.user_id == http.user_id
    &&& req.query_signals@.len() == 1
    &&& req.query_signals@[0] matches QuerySignal::NaturalLanguage(text) && text == http.intent
    &&& req.budget_tokens == http.budget_tokens
    &&& is_http_filters(req.hard_filters, http.workstream)
    &&& req.soft_prefs.diversity_lambda == 300_000
    &&& req.soft_prefs.max_single_source_ratio == 350_000
    &&& !req.soft_prefs.prefer_recent
    &&& req.soft_prefs.prefer_stages@ == http.prefer_stages@
    &&& req.soft_prefs.score_weights == (ScoreWeights {
        semantic: 400_000,
        lexical: 200_000,
        structural: 200_000,
        graph: 100_000,
        recency: 50_000,
        stage_boost: 50_000,
    })
    &&& req.explain == match http.explain {
        Some(e) => e,
        None => true,
    }
}

/// Turns a request over HTTP into a compile request.
pub fn compile_request(http: CompileRequestHttp) -> (req: CompileRequest)
    ensures
        is_compile_request(req, http),
        req.soft_prefs.well_formed(),
{
    let hard_filters = match &http.workstream {
        Some(ws) => {
            let mut path = "03_workstreams/".to_owned();
            path.append(ws.as_str());
            path.append("/");
            let mut allowed_paths: Vec<String> = Vec::new();
            allowed_paths.push(path);
            let mut required_workstreams: Vec<String> = Vec::new();
            required_workstreams.push(ws.clone());
            HardFilters {
                allowed_paths,
                excluded_paths: Vec::new(),
                max_doc_age_days: None,
                required_workstreams,
            }
        },
        None => HardFilters::default(),
    };
    let mut soft_prefs = SoftPreferences::default();
    soft_prefs.prefer_stages = http.prefer_stages;
    let mut query_signals: Vec<QuerySignal> = Vec::new();
    query_signals.push(QuerySignal::NaturalLanguage(http.intent.clone()));
    CompileRequest {
        intent: http.intent,
        task_id: None,
        session_id: http.session_id,
        user_id: http.user_id,
        query_signals,
        budget_tokens: http.budget_tokens,
        hard_filters,
        soft_prefs,
        explain: match http.explain {
            Some(e) => e,
            None => true,
        },
    }
}

/// The one-line error of a request that failed for the reason given.
pub open spec fn error_line(reason: Seq<char>) -> Seq<char> {
    "Compilation failed: "@ + reason
}

/// The answer to a request whose compilation failed. Its error states the
/// failure, and so names the intent where no candidates were found; the
/// details repeat the text of the failure.
pub fn error_response(failure: &CompileError) -> (response: ErrorResponse)
    ensures
        response.error@ == error_line(failure.message_text()),
        response.details matches Some(d) && d@ == failure.message_text(),
{
    failure_response(failure.message())
}

/// The answer to a request that failed for the reason given: the reason
/// stands in the error and, by itself, in the details.
pub fn failure_response(reason: String) -> (response: ErrorResponse)
    ensures
        response.error@ == error_line(reason@),
        response.details == Some(reason),
{
    let mut error = "Compilation failed: ".to_owned();
    error.append(reason.as_str());
    ErrorResponse { error, details: Some(reason) }
}

/// The answer of the health endpoint for a given version of the service.
pub fn health_response(version: &str) -> (response: HealthResponse)
    ensures
        response.status@ == "healthy"@,
        response.service@ == "axongraph"@,
        response.version@ == version@,
{
    HealthResponse {
        status: "healthy".to_owned(),
        service: "axongraph".to_owned(),
        version: version.to_owned(),
    }
}

} // verus!
