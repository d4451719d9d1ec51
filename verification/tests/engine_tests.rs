use oriongraph::context_engine::{
    collect_candidates, estimate_top_k, memory_limit, score_candidates,
};
use oriongraph::enrichment::{
    memory_candidate, memory_candidates, reserve_session_budget, session_items,
};
use oriongraph::signals::{derive_signals, keep_long_words};
use oriongraph::hydration::{
    compute_source_distribution, files_needed, hydrate_item, hydrate_workingset, slice_span,
    token_utilization,
};
use oriongraph::memory_client::{MemoriesResponse, Memory};
use oriongraph::session_client::{SessionContextResponse, SessionContextSpan};
use oriongraph::{
    CandidateSpan, CompileError, CompileRequest, ContextEngine, FileText, Gathered,
    GeneratorOutcome, HardFilters, LoadedFile, ScoreChannels, SoftPreferences, SourceType,
    SpanMetadata, SpanRef, WSItem, WorkingSet,
};

fn request(intent: &str, budget: usize) -> CompileRequest {
    CompileRequest {
        intent: intent.to_string(),
        task_id: None,
        session_id: None,
        user_id: None,
        query_signals: vec![],
        budget_tokens: budget,
        hard_filters: HardFilters::default(),
        soft_prefs: SoftPreferences::default(),
        explain: true,
    }
}

fn candidate(doc: &str, id: &str, semantic: u32, tokens: usize, filepath: &str) -> CandidateSpan {
    CandidateSpan {
        span_ref: SpanRef {
            doc_version_id: doc.to_string(),
            span_id: id.to_string(),
            char_start: 0,
            char_end: 5,
            token_cost: tokens,
        },
        scores: ScoreChannels { semantic, lexical: 0, structural: 0, graph: 0 },
        embedding: None,
        text_preview: String::new(),
        metadata: SpanMetadata {
            filepath: filepath.to_string(),
            workstream: None,
            stage: None,
            section_title: None,
            created_at: 0,
            recency_score: 900_000,
            source_type: SourceType::Knowledge,
            tags: vec![],
        },
        base_score: 0,
        mmr_score: 0,
    }
}

fn item(doc: &str, id: &str, tokens: usize, source_type: SourceType, path: &str) -> WSItem {
    WSItem {
        span_ref: SpanRef {
            doc_version_id: doc.to_string(),
            span_id: id.to_string(),
            char_start: 2,
            char_end: 6,
            token_cost: tokens,
        },
        text: if source_type == SourceType::Session { "said".to_string() } else { String::new() },
        metadata: SpanMetadata {
            filepath: path.to_string(),
            workstream: None,
            stage: None,
            section_title: None,
            created_at: 0,
            recency_score: 1_000_000,
            source_type,
            tags: vec![],
        },
    }
}

fn session_answer(costs: &[usize]) -> SessionContextResponse {
    SessionContextResponse {
        session_id: "s1".to_string(),
        context_spans: costs
            .iter()
            .enumerate()
            .map(|(i, c)| SessionContextSpan {
                text: format!("turn {}", i),
                role: "user".to_string(),
                timestamp: "t".to_string(),
                token_estimate: *c,
            })
            .collect(),
        total_tokens_estimate: costs.iter().sum(),
    }
}

#[test]
fn top_k_is_at_least_two_hundred() {
    assert_eq!(estimate_top_k(0), 200);
    assert_eq!(estimate_top_k(3000), 200);
    assert_eq!(estimate_top_k(10_000), 200);
    assert_eq!(estimate_top_k(10_050), 201);
    assert_eq!(estimate_top_k(50_000), 1000);
}

#[test]
fn memory_limit_defaults_to_ten() {
    assert_eq!(memory_limit(None), 10);
    assert_eq!(memory_limit(Some(3)), 3);
    assert_eq!(memory_limit(Some(0)), 0);
}

#[test]
fn signals_hold_the_long_words_in_lower_case() {
    let mut req = request("How do WE  roll back\tthe Deployment Safely now", 1000);
    req.task_id = Some("task-7".to_string());
    let signals = derive_signals(&req);
    assert_eq!(signals.intent, req.intent);
    assert_eq!(signals.keywords, vec!["roll", "back", "deployment", "safely"]);
    assert_eq!(signals.intent_embedding, vec![0; 768]);
    assert!(signals.struct_hints.section_patterns.is_empty());
    assert!(signals.struct_hints.doc_types.is_empty());
    assert_eq!(signals.episode_context, Some("task-7".to_string()));
}

#[test]
fn signals_of_an_empty_intent() {
    let signals = derive_signals(&request("", 1000));
    assert!(signals.keywords.is_empty());
    assert_eq!(signals.episode_context, None);
    let signals = derive_signals(&request("  a bc def \n", 1000));
    assert!(signals.keywords.is_empty());
}

#[test]
fn long_words_are_measured_in_bytes() {
    let words = vec!["abc".to_string(), "abcd".to_string(), "\u{e9}\u{e9}".to_string(), "".to_string()];
    assert_eq!(keep_long_words(words), vec!["abcd", "\u{e9}\u{e9}"]);
}

#[test]
fn failed_generators_are_left_out() {
    let outcomes = vec![
        GeneratorOutcome::Failed("connection refused".to_string()),
        GeneratorOutcome::Candidates(vec![
            candidate("d", "1", 1, 1, "a"),
            candidate("d", "2", 1, 1, "a"),
            candidate("d", "3", 1, 1, "a"),
            candidate("d", "4", 1, 1, "a"),
            candidate("d", "5", 1, 1, "a"),
        ]),
    ];
    let lists = collect_candidates(outcomes, &"intent".to_string()).unwrap();
    assert_eq!(lists.len(), 1);
    assert_eq!(lists[0].len(), 5);
}

#[test]
fn no_candidates_at_all_is_an_error_that_names_the_intent() {
    let outcomes = vec![
        GeneratorOutcome::Candidates(vec![]),
        GeneratorOutcome::Failed("down".to_string()),
        GeneratorOutcome::Candidates(vec![]),
    ];
    let intent = "find the rollback plan".to_string();
    match collect_candidates(outcomes, &intent) {
        Err(CompileError::EmptyCandidates { intent: named }) => assert_eq!(named, intent),
        Ok(_) => panic!("expected an error"),
    }
    let error = collect_candidates(vec![], &intent).unwrap_err();
    assert_eq!(error.message(), "No candidates found for intent: 'find the rollback plan'");
}

#[test]
fn empty_lists_stay_beside_a_list_with_candidates() {
    let outcomes = vec![
        GeneratorOutcome::Candidates(vec![]),
        GeneratorOutcome::Candidates(vec![candidate("d", "1", 1, 1, "a")]),
    ];
    let lists = collect_candidates(outcomes, &"x".to_string()).unwrap();
    assert_eq!(lists.len(), 2);
    assert!(lists[0].is_empty());
}

#[test]
fn session_items_take_text_and_cost_from_the_store() {
    let answer = session_answer(&[300, 20]);
    let items = session_items("abc", &answer.context_spans);
    assert_eq!(items.len(), 2);
    assert_eq!(items[0].span_ref.span_id, "session-abc-0");
    assert_eq!(items[1].span_ref.span_id, "session-abc-1");
    assert_eq!(items[1].span_ref.doc_version_id, "session:abc");
    assert_eq!(items[1].span_ref.char_start, 0);
    assert_eq!(items[1].span_ref.char_end, 6);
    assert_eq!(items[1].span_ref.token_cost, 20);
    assert_eq!(items[1].text, "turn 1");
    assert_eq!(items[1].metadata.filepath, "session/abc");
    assert_eq!(items[1].metadata.recency_score, 1_000_000);
    assert_eq!(items[1].metadata.source_type, SourceType::Session);
    assert_eq!(items[1].metadata.tags, vec!["session", "conversation"]);
    assert_eq!(items[1].metadata.created_at, 0);
    assert!(items[1].metadata.stage.is_none());
    assert!(session_items("abc", &vec![]).is_empty());
}

#[test]
fn session_is_trimmed_from_the_front_to_half_of_the_budget() {
    let answer = session_answer(&[300, 300, 300]);
    let items = session_items("s1", &answer.context_spans);
    let (kept, retrieval) = reserve_session_budget(items, 1000);
    assert_eq!(kept.len(), 1);
    assert_eq!(kept[0].span_ref.span_id, "session-s1-2");
    assert_eq!(retrieval, 700);
}

#[test]
fn session_that_fits_is_kept_whole() {
    let items = session_items("s1", &session_answer(&[100, 200, 200]).context_spans);
    let (kept, retrieval) = reserve_session_budget(items, 1000);
    assert_eq!(kept.len(), 3);
    assert_eq!(retrieval, 500);
    let (kept, retrieval) = reserve_session_budget(vec![], 1000);
    assert!(kept.is_empty());
    assert_eq!(retrieval, 1000);
}

#[test]
fn session_is_dropped_whole_where_no_span_fits() {
    let items = session_items("s1", &session_answer(&[10, 600]).context_spans);
    let (kept, retrieval) = reserve_session_budget(items, 1000);
    assert!(kept.is_empty());
    assert_eq!(retrieval, 1000);
    let items = session_items("s1", &session_answer(&[1]).context_spans);
    let (kept, retrieval) = reserve_session_budget(items, 1);
    assert!(kept.is_empty());
    assert_eq!(retrieval, 1);
    let items = session_items("s1", &session_answer(&[0, 0]).context_spans);
    let (kept, retrieval) = reserve_session_budget(items, 0);
    assert_eq!(kept.len(), 2);
    assert_eq!(retrieval, 0);
}

#[test]
fn session_costs_near_the_limit_of_the_machine() {
    let items = session_items("s1", &session_answer(&[usize::MAX, usize::MAX, 7]).context_spans);
    let (kept, retrieval) = reserve_session_budget(items, 100);
    assert_eq!(kept.len(), 1);
    assert_eq!(retrieval, 93);
}

#[test]
fn memory_becomes_a_candidate() {
    let memory = Memory {
        text: "The user prefers short answers with examples.".to_string(),
        source: "chat".to_string(),
        relevance: Some(910_000),
        category: Some("preferences".to_string()),
    };
    let c = memory_candidate("u1", 3, memory, 1_700_000_000);
    assert_eq!(c.span_ref.doc_version_id, "memory:u1");
    assert_eq!(c.span_ref.span_id, "memory-u1-3");
    assert_eq!(c.span_ref.char_start, 0);
    assert_eq!(c.span_ref.char_end, 45);
    assert_eq!(c.span_ref.token_cost, 11);
    assert_eq!(c.scores, ScoreChannels { semantic: 910_000, lexical: 0, structural: 0, graph: 0 });
    assert!(c.embedding.is_none());
    assert_eq!(c.text_preview, "The user prefers short answers with examples.");
    assert_eq!(c.metadata.filepath, "memory/u1");
    assert_eq!(c.metadata.stage, Some("memory_prefs".to_string()));
    assert_eq!(c.metadata.created_at, 1_700_000_000);
    assert_eq!(c.metadata.recency_score, 950_000);
    assert_eq!(c.metadata.source_type, SourceType::Memory);
    assert_eq!(c.metadata.tags, vec!["memory", "chat", "preferences"]);
    assert_eq!(c.base_score, 0);
    assert!(c.is_well_formed());
}

#[test]
fn memory_stage_follows_the_category() {
    let stage = |category: Option<&str>| {
        let memory = Memory {
            text: "short".to_string(),
            source: "src".to_string(),
            relevance: None,
            category: category.map(|c| c.to_string()),
        };
        let c = memory_candidate("u", 0, memory, 0);
        (c.metadata.stage.unwrap(), c.metadata.tags.len(), c.scores.semantic, c.span_ref.token_cost)
    };
    assert_eq!(stage(Some("user_preferences")), ("memory_prefs".to_string(), 3, 800_000, 10));
    assert_eq!(stage(Some("preferences")).0, "memory_prefs");
    assert_eq!(stage(Some("project_context")).0, "memory_project");
    assert_eq!(stage(Some("decisions")).0, "memory_decisions");
    assert_eq!(stage(Some("project_decisions")).0, "memory_decisions");
    assert_eq!(stage(Some("other")).0, "memory");
    assert_eq!(stage(None), ("memory".to_string(), 2, 800_000, 10));
}

#[test]
fn blank_memories_are_dropped_and_the_others_keep_their_index() {
    let memory = |text: &str| Memory {
        text: text.to_string(),
        source: "s".to_string(),
        relevance: None,
        category: None,
    };
    let list = vec![memory("first"), memory(""), memory(" \n\t "), memory("  fourth ")];
    let candidates = memory_candidates("u9", list, 5);
    let ids: Vec<&str> = candidates.iter().map(|c| c.span_ref.span_id.as_str()).collect();
    assert_eq!(ids, vec!["memory-u9-0", "memory-u9-3"]);
    assert_eq!(candidates[1].text_preview, "  fourth ");
    assert!(memory_candidates("u9", vec![], 5).is_empty());
}

#[test]
fn scoring_normalizes_and_sets_the_base_score() {
    let mut list = vec![
        candidate("d", "1", 900_000, 10, "a"),
        candidate("d", "2", 500_000, 10, "a"),
        candidate("d", "3", 700_000, 10, "a"),
    ];
    score_candidates(&mut list, &SoftPreferences::default());
    assert_eq!(list[0].scores.semantic, 1_000_000);
    assert_eq!(list[1].scores.semantic, 0);
    assert_eq!(list[2].scores.semantic, 500_000);
    // 0.4 * semantic + 0.05 * 0.9
    assert_eq!(list[0].base_score, 445_000);
    assert_eq!(list[1].base_score, 45_000);
    assert_eq!(list[2].base_score, 245_000);
}

#[test]
fn span_text_is_cut_by_characters() {
    let span = |start, end| SpanRef {
        doc_version_id: "d".to_string(),
        span_id: "s".to_string(),
        char_start: start,
        char_end: end,
        token_cost: 1,
    };
    let path = "notes/caf\u{e9}.md".to_string();
    let file = FileText::Content("h\u{e9}llo w\u{f6}rld".to_string());
    assert_eq!(slice_span(&span(0, 5), &path, &file), "h\u{e9}llo");
    assert_eq!(slice_span(&span(4, 9), &path, &file), "o w\u{f6}r");
    assert_eq!(slice_span(&span(6, 100), &path, &file), "w\u{f6}rld");
    assert_eq!(slice_span(&span(10, 11), &path, &file), "d");
    assert_eq!(slice_span(&span(3, 3), &path, &file), "");
    assert_eq!(slice_span(&span(5, 2), &path, &file), "");
    assert_eq!(
        slice_span(&span(11, 20), &path, &file),
        "[ERROR: Span offset 11-20 out of bounds for file notes/caf\u{e9}.md (11 chars)]"
    );
    assert_eq!(
        slice_span(&span(0, 0), &path, &FileText::Content(String::new())),
        "[ERROR: Span offset 0-0 out of bounds for file notes/caf\u{e9}.md (0 chars)]"
    );
    assert_eq!(
        slice_span(&span(0, 5), &path, &FileText::Unreadable("No such file".to_string())),
        "[ERROR: Could not read notes/caf\u{e9}.md - No such file]"
    );
}

#[test]
fn hydration_fills_in_the_text_of_document_spans_only() {
    let files = vec![
        LoadedFile { path: "a.md".to_string(), text: FileText::Content("0123456789".to_string()) },
        LoadedFile { path: "b.md".to_string(), text: FileText::Unreadable("denied".to_string()) },
        LoadedFile { path: "a.md".to_string(), text: FileText::Content("shadowed".to_string()) },
    ];
    let session = item("session:s", "session-s-0", 5, SourceType::Session, "session/s");
    let mut memory = item("memory:u", "memory-u-0", 5, SourceType::Memory, "memory/u");
    memory.text = "remembered".to_string();
    let a = item("da", "1", 7, SourceType::Knowledge, "a.md");
    let b = item("db", "1", 8, SourceType::Artifact, "b.md");
    let c = item("dc", "1", 9, SourceType::Context, "c.md");
    assert_eq!(hydrate_item(a.clone(), &files).text, "2345");
    let ws = hydrate_workingset(vec![session, memory, a, b, c], &files);
    let texts: Vec<&str> = ws.spans.iter().map(|s| s.text.as_str()).collect();
    assert_eq!(
        texts,
        vec![
            "said",
            "remembered",
            "2345",
            "[ERROR: Could not read b.md - denied]",
            "[ERROR: Could not read c.md - document was not loaded]",
        ]
    );
    assert_eq!(ws.total_tokens, 34);
    assert_eq!(ws.spans[2].span_ref.span_id, "1");
    assert_eq!(ws.spans[3].metadata.filepath, "b.md");
}

#[test]
fn files_needed_are_the_documents_of_the_spans_each_once() {
    let items = vec![
        item("session:s", "0", 1, SourceType::Session, "session/s"),
        item("d", "1", 1, SourceType::Knowledge, "b.md"),
        item("d", "2", 1, SourceType::Workstream, "a.md"),
        item("m", "3", 1, SourceType::Memory, "memory/u"),
        item("d", "4", 1, SourceType::Artifact, "b.md"),
        item("d", "5", 1, SourceType::Context, "c.md"),
    ];
    assert_eq!(files_needed(&items), vec!["b.md", "a.md", "c.md"]);
    assert!(files_needed(&vec![]).is_empty());
}

#[test]
fn source_distribution_sums_the_tokens_of_each_document_version() {
    let ws = WorkingSet {
        spans: vec![
            item("d1", "a", 100, SourceType::Knowledge, "x"),
            item("d2", "a", 30, SourceType::Knowledge, "x"),
            item("d1", "b", 5, SourceType::Knowledge, "y"),
            item("d3", "a", 0, SourceType::Knowledge, "z"),
            item("d2", "b", 12, SourceType::Knowledge, "x"),
        ],
        total_tokens: 147,
    };
    let dist = compute_source_distribution(&ws);
    let pairs: Vec<(&str, usize)> =
        dist.iter().map(|e| (e.doc_version_id.as_str(), e.tokens)).collect();
    assert_eq!(pairs, vec![("d1", 105), ("d2", 42), ("d3", 0)]);
    let empty = WorkingSet { spans: vec![], total_tokens: 0 };
    assert!(compute_source_distribution(&empty).is_empty());
}

#[test]
fn utilization_is_the_share_of_the_budget() {
    assert_eq!(token_utilization(2800, 3000), 933_333);
    assert_eq!(token_utilization(3000, 3000), 1_000_000);
    assert_eq!(token_utilization(0, 3000), 0);
    assert_eq!(token_utilization(0, 0), 0);
    assert_eq!(token_utilization(usize::MAX, usize::MAX), 1_000_000);
}

#[test]
fn engine_asks_the_stores_only_where_it_can() {
    let mut req = request("what next?", 1000);
    let plain = ContextEngine::new_simple();
    assert!(plain.session_client.is_none());
    assert!(plain.memory_client.is_none());
    req.session_id = Some("s1".to_string());
    req.user_id = Some("u1".to_string());
    assert_eq!(plain.session_request(&req), None);
    assert_eq!(plain.memory_request(&req, 10), None);
    let engine = ContextEngine::new(
        Some("http://127.0.0.1:8085".to_string()),
        Some("http://127.0.0.1:8086".to_string()),
    );
    assert_eq!(
        engine.session_request(&req),
        Some("http://127.0.0.1:8085/session/s1/context?limit=10".to_string())
    );
    assert_eq!(
        engine.memory_request(&req, 7),
        Some("http://127.0.0.1:8086/memory/u1?query=what%20next%3F&limit=7".to_string())
    );
    req.session_id = None;
    req.user_id = None;
    assert_eq!(engine.session_request(&req), None);
    assert_eq!(engine.memory_request(&req, 7), None);
}

#[test]
fn engine_takes_answers_only_where_it_asked() {
    let mut req = request("what next?", 1000);
    req.session_id = Some("s1".to_string());
    req.user_id = Some("u1".to_string());
    let engine = ContextEngine::new(Some("http://s".to_string()), Some("http://m".to_string()));
    let answer = Some(session_answer(&[10, 20]));
    assert_eq!(engine.session_spans(&req, &answer).len(), 2);
    assert_eq!(engine.session_spans(&req, &None).len(), 0);
    assert_eq!(ContextEngine::new_simple().session_spans(&req, &answer).len(), 0);
    let memories = || {
        Some(MemoriesResponse {
            user_id: "u1".to_string(),
            memories: vec![Memory {
                text: "likes tea".to_string(),
                source: "chat".to_string(),
                relevance: None,
                category: None,
            }],
            count: 1,
        })
    };
    let found = engine.memory_candidates(&req, memories(), 9);
    assert_eq!(found.len(), 1);
    assert_eq!(found[0].span_ref.span_id, "memory-u1-0");
    assert_eq!(engine.memory_candidates(&req, None, 9).len(), 0);
    assert_eq!(ContextEngine::new_simple().memory_candidates(&req, memories(), 9).len(), 0);
    req.user_id = None;
    req.session_id = None;
    assert_eq!(engine.memory_candidates(&req, memories(), 9).len(), 0);
    assert_eq!(engine.session_spans(&req, &answer).len(), 0);
}

#[test]
fn compile_reserves_budget_for_the_session() {
    let engine = ContextEngine::new(Some("http://s".to_string()), None);
    let mut req = request("plan", 1000);
    req.session_id = Some("s1".to_string());
    let session_spans = engine.session_spans(&req, &Some(session_answer(&[300, 300, 300])));
    let mut generated = vec![];
    for i in 0..10 {
        generated.push(candidate("doc", &format!("c{}", i), 100_000 * i, 200, "a.md"));
    }
    let gathered = Gathered {
        session_spans,
        generated: vec![GeneratorOutcome::Candidates(generated)],
        memory_candidates: vec![],
    };
    let plan = engine.compile_workingset(&req, gathered).unwrap();
    assert_eq!(plan.session_len(), 1);
    assert_eq!(plan.items()[0].span_ref.span_id, "session-s1-2");
    assert_eq!(plan.files_needed(), vec!["a.md"]);
    let files =
        vec![LoadedFile { path: "a.md".to_string(), text: FileText::Content("hello world".to_string()) }];
    let response = plan.complete(&files, 12);
    let spans = &response.workingset.spans;
    assert_eq!(spans[0].metadata.source_type, SourceType::Session);
    assert_eq!(spans[0].text, "turn 2");
    assert!(spans[1..].iter().all(|s| s.metadata.source_type != SourceType::Session));
    assert!(spans[1..].iter().all(|s| s.text == "hello"));
    // 300 for the session, and three spans of 200 within the 700 that are left
    assert_eq!(spans.len(), 4);
    assert_eq!(response.workingset.total_tokens, 900);
    assert_eq!(response.stats.candidates_generated, 10);
    assert_eq!(response.stats.candidates_after_dedup, 10);
    assert_eq!(response.stats.candidates_selected, 4);
    assert_eq!(response.stats.token_utilization, 900_000);
    assert_eq!(response.stats.generation_time_ms, 12);
    let dist: Vec<(&str, usize)> = response
        .stats
        .source_distribution
        .iter()
        .map(|e| (e.doc_version_id.as_str(), e.tokens))
        .collect();
    assert_eq!(dist, vec![("session:s1", 300), ("doc", 600)]);
    let rationale = response.rationale.unwrap();
    assert_eq!(rationale.len(), 3);
    for (explanation, span) in rationale.iter().zip(spans[1..].iter()) {
        assert_eq!(explanation.span_ref, span.span_ref);
    }
    assert_eq!(rationale[0].span_ref.span_id, "c9");
}

#[test]
fn compile_takes_memories_as_candidates() {
    let engine = ContextEngine::new(None, Some("http://m".to_string()));
    let mut req = request("plan", 1000);
    req.user_id = Some("u1".to_string());
    req.explain = false;
    req.soft_prefs.max_single_source_ratio = 1_000_000;
    let memories = engine.memory_candidates(
        &req,
        Some(MemoriesResponse {
            user_id: "u1".to_string(),
            memories: vec![Memory {
                text: "The rollback plan lives in the runbook.".to_string(),
                source: "chat".to_string(),
                relevance: Some(1_000_000),
                category: Some("project_context".to_string()),
            }],
            count: 1,
        }),
        77,
    );
    let gathered = Gathered {
        session_spans: vec![],
        generated: vec![
            GeneratorOutcome::Failed("boom".to_string()),
            GeneratorOutcome::Candidates(vec![
                candidate("doc", "c0", 500_000, 100, "a.md"),
                candidate("doc", "c0", 100_000, 100, "a.md"),
            ]),
        ],
        memory_candidates: memories,
    };
    let plan = engine.compile_workingset(&req, gathered).unwrap();
    assert_eq!(plan.session_len(), 0);
    let response = plan.complete(&vec![], 0);
    assert!(response.rationale.is_none());
    assert_eq!(response.stats.candidates_generated, 3);
    assert_eq!(response.stats.candidates_after_dedup, 2);
    assert_eq!(response.stats.candidates_selected, 2);
    let spans = &response.workingset.spans;
    assert_eq!(spans[0].span_ref.span_id, "memory-u1-0");
    assert_eq!(spans[0].text, "The rollback plan lives in the runbook.");
    assert_eq!(spans[1].text, "[ERROR: Could not read a.md - document was not loaded]");
    assert!(spans.iter().all(|s| !s.text.is_empty()));
}

#[test]
fn compile_fails_where_no_generator_has_candidates() {
    let engine = ContextEngine::new_simple();
    let req = request("nothing to find", 1000);
    let mut memory = candidate("memory:u", "memory-u-0", 1, 10, "memory/u");
    memory.metadata.source_type = SourceType::Memory;
    let gathered = Gathered {
        session_spans: vec![],
        generated: vec![
            GeneratorOutcome::Candidates(vec![]),
            GeneratorOutcome::Failed("down".to_string()),
        ],
        memory_candidates: vec![memory],
    };
    match engine.compile_workingset(&req, gathered) {
        Err(e) => assert!(e.message().contains("nothing to find")),
        Ok(_) => panic!("expected an error"),
    }
}

#[test]
fn compile_with_one_failing_generator_succeeds() {
    let engine = ContextEngine::new_simple();
    let req = request("find it", 5000);
    let mut generated = vec![];
    for i in 0..5 {
        generated.push(candidate("doc", &format!("c{}", i), 100_000 * (i + 1), 100, "a.md"));
    }
    let gathered = Gathered {
        session_spans: vec![],
        generated: vec![
            GeneratorOutcome::Failed("raised".to_string()),
            GeneratorOutcome::Candidates(generated),
        ],
        memory_candidates: vec![],
    };
    let response = engine.compile_workingset(&req, gathered).unwrap().complete(&vec![], 0);
    assert_eq!(response.stats.candidates_generated, 5);
    assert_eq!(response.stats.candidates_selected, response.workingset.spans.len());
    assert_eq!(response.workingset.spans.len(), 5);
}

#[test]
fn compiled_spans_are_all_different() {
    let engine = ContextEngine::new_simple();
    let mut req = request("find it", 100_000);
    req.soft_prefs.max_single_source_ratio = 1_000_000;
    let mut a = vec![];
    let mut b = vec![];
    for i in 0..30 {
        a.push(candidate("doc", &format!("c{}", i % 20), 10_000 * i, 100, "a.md"));
        b.push(candidate("doc", &format!("c{}", i % 7), 7_000 * i, 100, "b.md"));
    }
    let gathered = Gathered {
        session_spans: vec![],
        generated: vec![GeneratorOutcome::Candidates(a), GeneratorOutcome::Candidates(b)],
        memory_candidates: vec![],
    };
    let response = engine.compile_workingset(&req, gathered).unwrap().complete(&vec![], 0);
    assert_eq!(response.stats.candidates_generated, 60);
    assert_eq!(response.stats.candidates_after_dedup, 20);
    let mut ids: Vec<&str> =
        response.workingset.spans.iter().map(|s| s.span_ref.span_id.as_str()).collect();
    assert_eq!(ids.len(), 20);
    ids.sort();
    ids.dedup();
    assert_eq!(ids.len(), 20);
}

#[test]
fn gathered_candidates_must_be_well_formed() {
    let gathered = |bad_embedding: bool, bad_memory: bool| {
        let mut c = candidate("doc", "c0", 1, 1, "a.md");
        if bad_embedding {
            c.embedding = Some(vec![0, 2_000_000]);
        }
        let mut m = candidate("memory:u", "memory-u-0", 1, 1, "memory/u");
        if bad_memory {
            m.metadata.recency_score = 1_000_001;
        }
        Gathered {
            session_spans: vec![],
            generated: vec![
                GeneratorOutcome::Failed("down".to_string()),
                GeneratorOutcome::Candidates(vec![candidate("doc", "c1", 1, 1, "a.md"), c]),
                GeneratorOutcome::Candidates(vec![]),
            ],
            memory_candidates: vec![m],
        }
    };
    assert!(gathered(false, false).is_admissible());
    assert!(!gathered(true, false).is_admissible());
    assert!(!gathered(false, true).is_admissible());
    let empty = Gathered { session_spans: vec![], generated: vec![], memory_candidates: vec![] };
    assert!(empty.is_admissible());
}

#[test]
fn memories_without_text_are_dropped() {
    let memory = |text: &str| Memory {
        text: text.to_string(),
        source: "s".to_string(),
        relevance: Some(1),
        category: None,
    };
    assert!(oriongraph::enrichment::is_blank_memory(&memory("")));
    assert!(oriongraph::enrichment::is_blank_memory(&memory("\u{a0}\u{2003}")));
    assert!(!oriongraph::enrichment::is_blank_memory(&memory(" x ")));
    assert!(memory_candidates("u", vec![memory(""), memory("")], 0).is_empty());
}
