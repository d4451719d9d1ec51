use oriongraph::context_engine::CompileError;
use oriongraph::generators::head_of;
use oriongraph::http_generator::{
    search_filters, search_request, source_type_from_path, workstream_from_path, SearchCandidate,
    SearchResponse,
};
use oriongraph::http_lexical_gen::{LexicalCandidate, LexicalResponse};
use oriongraph::server::{
    compile_request, error_response, failure_response, health_response, CompileRequestHttp,
};
use oriongraph::{
    CandidateSpan, DerivedSignals, HardFilters, HttpLexicalGen, HttpSemanticGen, MemoryClient,
    MockLexicalGen, MockSemanticGen, MockStructuralGen, QuerySignal, ScoreChannels,
    SessionClient, SourceType, SpanMetadata, SpanRef, StructHints,
};

fn signals(intent: &str, keywords: &[&str]) -> DerivedSignals {
    DerivedSignals {
        intent: intent.to_string(),
        intent_embedding: vec![],
        keywords: keywords.iter().map(|k| k.to_string()).collect(),
        struct_hints: StructHints::default(),
        episode_context: None,
    }
}

fn hit(path: &str) -> SearchCandidate {
    SearchCandidate {
        chunk_id: 17,
        path: path.to_string(),
        score: 830_000,
        token_cost: 55,
        doc_version_id: None,
        span_id: None,
        char_start: None,
        char_end: None,
        abs_path: None,
        hash: None,
        size: None,
    }
}

fn stock(n: usize) -> Vec<CandidateSpan> {
    (0..n)
        .map(|i| CandidateSpan {
            span_ref: SpanRef {
                doc_version_id: "d".to_string(),
                span_id: format!("s{}", i),
                char_start: i,
                char_end: i + 10,
                token_cost: 3,
            },
            scores: ScoreChannels { semantic: 1, lexical: 2, structural: 3, graph: 4 },
            embedding: Some(vec![1_000_000, -5]),
            text_preview: "preview".to_string(),
            metadata: SpanMetadata {
                filepath: "a.md".to_string(),
                workstream: Some("ws".to_string()),
                stage: None,
                section_title: Some("title".to_string()),
                created_at: 4,
                recency_score: 5,
                source_type: SourceType::Artifact,
                tags: vec!["t1".to_string(), "t2".to_string()],
            },
            base_score: 6,
            mmr_score: 7,
        })
        .collect()
}

#[test]
fn test_extract_query() {
    let signals = DerivedSignals {
        intent: "test query".to_string(),
        intent_embedding: vec![],
        keywords: vec![],
        struct_hints: Default::default(),
        episode_context: None,
    };
    let query = HttpSemanticGen::extract_query(&signals);
    assert_eq!(query, "test query");
}

#[test]
fn http_generator_test_extract_query_keywords() {
    let signals = DerivedSignals {
        intent: "".to_string(),
        intent_embedding: vec![],
        keywords: vec!["foo".to_string(), "bar".to_string()],
        struct_hints: Default::default(),
        episode_context: None,
    };
    let query = HttpSemanticGen::extract_query(&signals);
    assert_eq!(query, "foo bar");
}

#[test]
fn http_lexical_gen_test_extract_query_keywords() {
    let signals = DerivedSignals {
        intent: "".to_string(),
        intent_embedding: vec![],
        keywords: vec!["span".to_string(), "addressing".to_string()],
        struct_hints: Default::default(),
        episode_context: None,
    };
    let query = HttpLexicalGen::extract_query(&signals);
    assert_eq!(query, "span addressing");
}

#[test]
fn test_extract_query_intent() {
    let signals = DerivedSignals {
        intent: "retrieval as compilation".to_string(),
        intent_embedding: vec![],
        keywords: vec![],
        struct_hints: Default::default(),
        episode_context: None,
    };
    let query = HttpLexicalGen::extract_query(&signals);
    assert_eq!(query, "retrieval as compilation");
}

#[test]
fn semantic_query_prefers_the_intent_and_lexical_the_keywords() {
    let both = signals("the intent", &["key", "words"]);
    assert_eq!(HttpSemanticGen::extract_query(&both), "the intent");
    assert_eq!(HttpLexicalGen::extract_query(&both), "key words");
    let none = signals("", &[]);
    assert_eq!(HttpSemanticGen::extract_query(&none), "");
    assert_eq!(HttpLexicalGen::extract_query(&none), "");
}

#[test]
fn search_request_asks_for_three_times_the_hint() {
    let gen = HttpSemanticGen::new("http://127.0.0.1:8083".to_string());
    assert_eq!(gen.name(), "http_semantic");
    assert_eq!(gen.search_url(), "http://127.0.0.1:8083/search");
    let request = gen.request(&signals("find", &[]), &HardFilters::default(), 200).unwrap();
    assert_eq!(request.query, "find");
    assert_eq!(request.k, 600);
    assert!(request.filters.is_none());
    assert!(gen.request(&signals("", &[]), &HardFilters::default(), 200).is_none());
    let lexical = HttpLexicalGen::new("http://127.0.0.1:8084".to_string());
    assert_eq!(lexical.name(), "http_lexical");
    assert_eq!(lexical.search_url(), "http://127.0.0.1:8084/search");
    let request = lexical.request(&signals("find", &["word"]), &HardFilters::default(), 1).unwrap();
    assert_eq!(request.query, "word");
    assert_eq!(request.k, 3);
    assert!(search_request(String::new(), &HardFilters::default(), 5).is_none());
}

#[test]
fn search_filters_follow_the_hard_filters() {
    assert!(search_filters(&HardFilters::default()).is_none());
    let mut hard = HardFilters::default();
    hard.required_workstreams = vec!["ws-a".to_string(), "ws-b".to_string()];
    let filters = search_filters(&hard).unwrap();
    assert_eq!(filters.workstream, Some("ws-a".to_string()));
    assert!(filters.allowed_paths.is_none());
    hard.required_workstreams = vec![];
    hard.allowed_paths = vec!["03_workstreams/ws-a/".to_string(), "02_knowledge/".to_string()];
    hard.excluded_paths = vec!["x".to_string()];
    let filters = search_filters(&hard).unwrap();
    assert!(filters.workstream.is_none());
    assert_eq!(filters.allowed_paths, Some(hard.allowed_paths.clone()));
}

#[test]
fn source_type_and_workstream_come_from_the_path() {
    let source = |p: &str| source_type_from_path(&p.to_string());
    assert_eq!(source("03_workstreams/ws-orion/plan.md"), SourceType::Workstream);
    assert_eq!(source("02_knowledge/adr.md"), SourceType::Knowledge);
    assert_eq!(source("01_context/vision.md"), SourceType::Context);
    assert_eq!(source("04_artifacts/build.log"), SourceType::Artifact);
    assert_eq!(source("notes.md"), SourceType::Artifact);
    assert_eq!(source("02_knowledge/03_workstreams/x.md"), SourceType::Workstream);
    let workstream = |p: &str| workstream_from_path(&p.to_string());
    assert_eq!(workstream("03_workstreams/ws-orion/plan.md"), Some("ws-orion".to_string()));
    assert_eq!(workstream("root/03_workstreams/ws-orion/plan.md"), Some("03_workstreams".to_string()));
    assert_eq!(workstream("02_knowledge/adr.md"), None);
}

#[test]
fn semantic_hit_on_a_chunk_keeps_its_span() {
    let gen = HttpSemanticGen::new("http://x".to_string());
    let mut h = hit("03_workstreams/ws-orion/plan.md");
    h.doc_version_id = Some("sha-1".to_string());
    h.span_id = Some("chunk-9".to_string());
    h.char_start = Some(120);
    h.char_end = Some(480);
    h.hash = Some("ignored".to_string());
    h.size = Some(9999);
    let c = gen.to_candidate_span(h, 1_700_000_000);
    assert_eq!(c.span_ref.doc_version_id, "sha-1");
    assert_eq!(c.span_ref.span_id, "chunk-9");
    assert_eq!(c.span_ref.char_start, 120);
    assert_eq!(c.span_ref.char_end, 480);
    assert_eq!(c.span_ref.token_cost, 55);
    assert_eq!(c.scores, ScoreChannels { semantic: 830_000, lexical: 0, structural: 0, graph: 0 });
    assert!(c.embedding.is_none());
    assert_eq!(c.text_preview, "Content from 03_workstreams/ws-orion/plan.md");
    assert_eq!(c.metadata.filepath, "03_workstreams/ws-orion/plan.md");
    assert_eq!(c.metadata.workstream, Some("ws-orion".to_string()));
    assert_eq!(c.metadata.source_type, SourceType::Workstream);
    assert_eq!(c.metadata.recency_score, 900_000);
    assert_eq!(c.metadata.created_at, 1_700_000_000);
    assert!(c.metadata.tags.is_empty());
    assert!(c.metadata.stage.is_none());
    assert_eq!(c.base_score, 0);
}

#[test]
fn semantic_hit_on_a_document_covers_the_document() {
    let gen = HttpSemanticGen::new("http://x".to_string());
    let mut h = hit("02_knowledge/adr.md");
    h.hash = Some("abc123".to_string());
    h.size = Some(4096);
    h.doc_version_id = Some("partial chunk data is not enough".to_string());
    let c = gen.to_candidate_span(h, 0);
    assert_eq!(c.span_ref.doc_version_id, "abc123");
    assert_eq!(c.span_ref.span_id, "span_17");
    assert_eq!(c.span_ref.char_start, 0);
    assert_eq!(c.span_ref.char_end, 4096);
    assert_eq!(c.span_ref.token_cost, 1024);
    assert_eq!(c.metadata.source_type, SourceType::Knowledge);
    assert!(c.metadata.workstream.is_none());
    let c = gen.to_candidate_span(hit("x.md"), 0);
    assert_eq!(c.span_ref.doc_version_id, "unknown");
    assert_eq!(c.span_ref.char_end, 1000);
    assert_eq!(c.span_ref.token_cost, 250);
    let mut small = hit("x.md");
    small.size = Some(43);
    assert_eq!(gen.to_candidate_span(small, 0).span_ref.token_cost, 10);
    let mut edge = hit("x.md");
    edge.size = Some(44);
    assert_eq!(gen.to_candidate_span(edge, 0).span_ref.token_cost, 11);
}

#[test]
fn answers_turn_into_candidates_hit_by_hit() {
    let gen = HttpSemanticGen::new("http://x".to_string());
    let response = SearchResponse { candidates: vec![hit("a.md"), hit("b.md")], num_results: 2 };
    let out = gen.candidates(response, 3);
    assert_eq!(out.len(), 2);
    assert_eq!(out[1].metadata.filepath, "b.md");
    let lexical = HttpLexicalGen::new("http://y".to_string());
    let response = LexicalResponse {
        query: "q".to_string(),
        k: 3,
        results: vec![LexicalCandidate {
            doc_id: 4,
            path: "01_context/vision.md".to_string(),
            hash: "h4".to_string(),
            score: 12_340_000,
            size: 400,
        }],
    };
    let out = lexical.candidates(response, 8);
    assert_eq!(out.len(), 1);
    let c = &out[0];
    assert_eq!(c.span_ref.doc_version_id, "h4");
    assert_eq!(c.span_ref.span_id, "span_4");
    assert_eq!(c.span_ref.char_end, 400);
    assert_eq!(c.span_ref.token_cost, 100);
    assert_eq!(c.scores, ScoreChannels { semantic: 0, lexical: 12_340_000, structural: 0, graph: 0 });
    assert_eq!(c.text_preview, "Content from 01_context/vision.md");
    assert_eq!(c.metadata.source_type, SourceType::Context);
    assert_eq!(c.metadata.created_at, 8);
    assert!(c.is_well_formed());
}

#[test]
fn mock_generators_hand_out_the_head_of_their_list() {
    let none = signals("", &[]);
    let filters = HardFilters::default();
    let semantic = MockSemanticGen::new(stock(5));
    assert_eq!(semantic.name(), "mock_semantic");
    let out = semantic.generate(&none, &filters, 3);
    assert_eq!(out.len(), 3);
    assert_eq!(out[2].span_ref.span_id, "s2");
    assert_eq!(out[2].span_ref.char_start, 2);
    assert_eq!(out[2].embedding, Some(vec![1_000_000, -5]));
    assert_eq!(out[2].metadata.tags, vec!["t1", "t2"]);
    assert_eq!(out[2].metadata.section_title, Some("title".to_string()));
    assert_eq!(out[2].metadata.workstream, Some("ws".to_string()));
    assert_eq!(out[2].scores, ScoreChannels { semantic: 1, lexical: 2, structural: 3, graph: 4 });
    assert_eq!(out[2].base_score, 6);
    assert_eq!(out[2].mmr_score, 7);
    assert_eq!(out[2].text_preview, "preview");
    assert_eq!(semantic.generate(&none, &filters, 200).len(), 5);
    assert_eq!(semantic.generate(&none, &filters, 0).len(), 0);
    let lexical = MockLexicalGen::new(stock(2));
    assert_eq!(lexical.name(), "mock_lexical");
    assert_eq!(lexical.generate(&none, &filters, 1).len(), 1);
    let structural = MockStructuralGen::new(vec![]);
    assert_eq!(structural.name(), "mock_structural");
    assert_eq!(structural.generate(&none, &filters, 1).len(), 0);
    assert_eq!(head_of(&stock(4), 4).len(), 4);
}

#[test]
fn session_client_addresses() {
    let client = SessionClient::new("http://127.0.0.1:8085".to_string());
    assert_eq!(client.base_url(), "http://127.0.0.1:8085");
    assert_eq!(
        client.context_url("abc", Some(3)),
        "http://127.0.0.1:8085/session/abc/context?limit=3"
    );
    assert_eq!(client.context_url("abc", None), "http://127.0.0.1:8085/session/abc/context?limit=10");
    assert_eq!(client.state_url("abc"), "http://127.0.0.1:8085/session/abc/state");
    assert_eq!(client.health_url(), "http://127.0.0.1:8085/health");
}

#[test]
fn memory_client_addresses_encode_the_query() {
    let client = MemoryClient::new("http://127.0.0.1:8086".to_string());
    assert_eq!(client.base_url(), "http://127.0.0.1:8086");
    assert_eq!(
        client.memories_url("u1", "roll back & retry?", Some(4)),
        "http://127.0.0.1:8086/memory/u1?query=roll%20back%20%26%20retry%3F&limit=4"
    );
    assert_eq!(
        client.memories_url("u1", "safe-chars_only.~09AZaz", None),
        "http://127.0.0.1:8086/memory/u1?query=safe-chars_only.~09AZaz&limit=5"
    );
    assert_eq!(
        client.formatted_url("u1", "caf\u{e9}/\u{1f47e}", None),
        "http://127.0.0.1:8086/memory/u1/formatted?query=caf%C3%A9%2F%F0%9F%91%BE&limit=5"
    );
    assert_eq!(client.memories_url("u1", "", Some(0)), "http://127.0.0.1:8086/memory/u1?query=&limit=0");
    assert_eq!(client.health_url(), "http://127.0.0.1:8086/health");
}

#[test]
fn http_request_with_a_workstream() {
    let http = CompileRequestHttp {
        intent: "what changed?".to_string(),
        budget_tokens: 4000,
        workstream: Some("ws-orion".to_string()),
        session_id: Some("s1".to_string()),
        user_id: None,
        explain: Some(false),
        prefer_stages: vec!["design".to_string()],
    };
    let req = compile_request(http);
    assert_eq!(req.intent, "what changed?");
    assert_eq!(req.budget_tokens, 4000);
    assert!(req.task_id.is_none());
    assert_eq!(req.session_id, Some("s1".to_string()));
    assert!(req.user_id.is_none());
    assert!(!req.explain);
    assert_eq!(req.hard_filters.allowed_paths, vec!["03_workstreams/ws-orion/"]);
    assert_eq!(req.hard_filters.required_workstreams, vec!["ws-orion"]);
    assert!(req.hard_filters.excluded_paths.is_empty());
    assert!(req.hard_filters.max_doc_age_days.is_none());
    assert_eq!(req.soft_prefs.prefer_stages, vec!["design"]);
    assert_eq!(req.soft_prefs.diversity_lambda, 300_000);
    assert_eq!(req.soft_prefs.max_single_source_ratio, 350_000);
    assert_eq!(req.query_signals.len(), 1);
    match &req.query_signals[0] {
        QuerySignal::NaturalLanguage(text) => assert_eq!(text, "what changed?"),
        _ => panic!("expected the intent as natural language"),
    }
}

#[test]
fn http_request_without_options() {
    let http = CompileRequestHttp {
        intent: "x".to_string(),
        budget_tokens: 0,
        workstream: None,
        session_id: None,
        user_id: Some("u".to_string()),
        explain: None,
        prefer_stages: vec![],
    };
    let req = compile_request(http);
    assert!(req.explain);
    assert!(req.hard_filters.allowed_paths.is_empty());
    assert!(req.hard_filters.required_workstreams.is_empty());
    assert!(req.soft_prefs.prefer_stages.is_empty());
    assert_eq!(req.user_id, Some("u".to_string()));
    assert!(req.soft_prefs.is_well_formed());
}

#[test]
fn answers_of_the_server() {
    let failure = CompileError::EmptyCandidates { intent: "audit rollback".to_string() };
    let response = error_response(&failure);
    assert_eq!(
        response.error,
        "Compilation failed: No candidates found for intent: 'audit rollback'"
    );
    assert!(response.error.contains("audit rollback"));
    assert!(!response.error.contains('\n'));
    assert_eq!(
        response.details,
        Some("No candidates found for intent: 'audit rollback'".to_string())
    );
    let response = failure_response("the index is down".to_string());
    assert_eq!(response.error, "Compilation failed: the index is down");
    assert_eq!(response.details, Some("the index is down".to_string()));
    let health = health_response("0.1.0");
    assert_eq!(health.status, "healthy");
    assert_eq!(health.service, "axongraph");
    assert_eq!(health.version, "0.1.0");
}
