use oriongraph::context_engine::{estimate_top_k, score_candidates};
use oriongraph::signals::derive_signals;
use oriongraph::scoring::{compute_base_score, normalize_scores};
use oriongraph::ranking::rank_candidates;
use oriongraph::selection::{
    explain_candidate, find_best_mmr, find_smaller_span, select_with_mmr,
};
use oriongraph::{
    CandidateSpan, CompileRequest, ContextEngine, Gathered, GeneratorOutcome, HardFilters,
    MockSemanticGen, ScoreChannels, SoftPreferences, SourceType, SpanMetadata, SpanRef,
};

fn micro(x: f64) -> u32 {
    (x * 1_000_000.0).round() as u32
}

fn micro_vec(v: Vec<f32>) -> Vec<i32> {
    v.into_iter().map(|x| (x as f64 * 1_000_000.0).round() as i32).collect()
}

fn mock_candidate(
    id: &str,
    sem_score: f64,
    lex_score: f64,
    tokens: usize,
    filepath: &str,
    embedding: Option<Vec<f32>>,
) -> CandidateSpan {
    CandidateSpan {
        span_ref: SpanRef {
            doc_version_id: format!("doc_{}", filepath),
            span_id: id.to_string(),
            char_start: 0,
            char_end: 100,
            token_cost: tokens,
        },
        scores: ScoreChannels {
            semantic: micro(sem_score),
            lexical: micro(lex_score),
            structural: micro(0.5),
            graph: 0,
        },
        embedding: embedding.map(micro_vec),
        text_preview: format!("Preview of span {}", id),
        metadata: SpanMetadata {
            filepath: filepath.to_string(),
            workstream: Some("ws-test".to_string()),
            stage: Some("research".to_string()),
            section_title: Some("Test Section".to_string()),
            created_at: 1_700_000_000,
            tags: vec![],
            recency_score: micro(0.8),
            source_type: SourceType::Workstream,
        },
        base_score: 0,
        mmr_score: 0,
    }
}

fn default_prefs() -> SoftPreferences {
    SoftPreferences::default()
}

#[test]
fn test_mmr_diversity() {
    let risk_emb = vec![1.0, 0.0, 0.0];
    let rollback_emb = vec![0.0, 1.0, 0.0];

    let mut candidates = vec![];
    for i in 0..5 {
        candidates.push(mock_candidate(
            &format!("risk_{}", i),
            0.9 - (i as f64 * 0.05),
            0.8,
            500,
            "risks.md",
            Some(risk_emb.clone()),
        ));
    }
    for i in 0..5 {
        candidates.push(mock_candidate(
            &format!("rollback_{}", i),
            0.7 - (i as f64 * 0.05),
            0.7,
            500,
            "rollback.md",
            Some(rollback_emb.clone()),
        ));
    }

    let mut prefs = default_prefs();
    prefs.diversity_lambda = micro(0.3);
    prefs.max_single_source_ratio = micro(1.0);

    normalize_scores(&mut candidates);
    for cand in candidates.iter_mut() {
        cand.base_score = compute_base_score(cand, &prefs);
    }

    let (selected, _) = select_with_mmr(candidates, 5000, &prefs, false);

    let risk_count = selected.iter().filter(|s| s.span_ref.span_id.starts_with("risk")).count();
    let rollback_count =
        selected.iter().filter(|s| s.span_ref.span_id.starts_with("rollback")).count();

    assert!(risk_count > 0, "Should include risk spans");
    assert!(rollback_count > 0, "Should include rollback spans for diversity");
    assert!(selected.len() >= 8, "Should select multiple spans");
}

#[test]
fn test_source_diversity_constraint() {
    let mut candidates = vec![];
    for i in 0..8 {
        candidates.push(mock_candidate(&format!("a_{}", i), 0.9, 0.8, 500, "doc_A", None));
    }
    for i in 0..2 {
        candidates.push(mock_candidate(&format!("b_{}", i), 0.5, 0.5, 500, "doc_B", None));
    }

    let mut prefs = default_prefs();
    prefs.max_single_source_ratio = micro(0.55);
    prefs.diversity_lambda = micro(0.0);

    normalize_scores(&mut candidates);
    for cand in candidates.iter_mut() {
        cand.base_score = compute_base_score(cand, &prefs);
    }

    let (selected, _) = select_with_mmr(candidates, 5000, &prefs, false);

    let total_tokens: usize = selected.iter().map(|s| s.span_ref.token_cost).sum();
    let doc_a_tokens: usize = selected
        .iter()
        .filter(|s| s.span_ref.doc_version_id == "doc_doc_A")
        .map(|s| s.span_ref.token_cost)
        .sum();

    let doc_a_ratio = doc_a_tokens as f32 / total_tokens as f32;

    assert!(
        doc_a_ratio <= 0.56,
        "doc_A should not exceed 55% (allowing small margin): {:.2}",
        doc_a_ratio
    );
}

#[test]
fn test_token_budget_respected() {
    let mut candidates = vec![];
    for i in 0..20 {
        candidates.push(mock_candidate(&format!("span_{}", i), 0.8, 0.7, 300, "test.md", None));
    }

    let budget = 3000;
    let prefs = default_prefs();

    normalize_scores(&mut candidates);
    for cand in candidates.iter_mut() {
        cand.base_score = compute_base_score(cand, &prefs);
    }

    let (selected, _) = select_with_mmr(candidates, budget, &prefs, false);

    let total_tokens: usize = selected.iter().map(|s| s.span_ref.token_cost).sum();

    assert!(total_tokens <= budget, "Should not exceed budget");
    assert!(
        total_tokens >= (budget as f32 * 0.85) as usize,
        "Should achieve >85% utilization: {} / {}",
        total_tokens,
        budget
    );
}

#[test]
fn test_end_to_end_compile() {
    let mut candidates = vec![];
    for i in 0..10 {
        candidates.push(mock_candidate(
            &format!("span_{}", i),
            0.7 + (i as f64 * 0.02),
            0.6,
            400,
            "test.md",
            Some(vec![i as f32 / 10.0, 0.5, 0.5]),
        ));
    }

    let gen = MockSemanticGen::new(candidates);
    let engine = ContextEngine::new_simple();

    let req = CompileRequest {
        intent: "test intent".to_string(),
        task_id: None,
        session_id: None,
        user_id: None,
        query_signals: vec![],
        budget_tokens: 3000,
        hard_filters: HardFilters::default(),
        soft_prefs: SoftPreferences::default(),
        explain: true,
    };

    let signals = derive_signals(&req);
    let generated = gen.generate(&signals, &req.hard_filters, estimate_top_k(req.budget_tokens));
    let gathered = Gathered {
        session_spans: vec![],
        generated: vec![GeneratorOutcome::Candidates(generated)],
        memory_candidates: vec![],
    };
    let plan = engine.compile_workingset(&req, gathered).unwrap();
    let response = plan.complete(&vec![], 0);

    assert!(!response.workingset.spans.is_empty(), "Should select spans");
    assert!(response.workingset.total_tokens <= 3000, "Should respect budget");
    assert!(response.stats.token_utilization > 500_000, "Should use >50% of budget");
    assert!(response.rationale.is_some(), "Should include explanations");

    println!("Selected {} spans", response.workingset.spans.len());
    println!(
        "Token utilization: {:.1}%",
        response.stats.token_utilization as f64 / 10_000.0
    );
}

#[test]
fn source_cap_leaves_each_source_its_share() {
    let mut candidates = vec![];
    for i in 0..8 {
        candidates.push(mock_candidate(&format!("a_{}", i), 0.9, 0.8, 500, "doc_A", None));
    }
    for i in 0..2 {
        candidates.push(mock_candidate(&format!("b_{}", i), 0.5, 0.5, 500, "doc_B", None));
    }
    let mut prefs = default_prefs();
    prefs.max_single_source_ratio = 550_000;
    prefs.diversity_lambda = 0;
    score_candidates(&mut candidates, &prefs);
    let (selected, _) = select_with_mmr(candidates, 5000, &prefs, false);
    let ids: Vec<&str> = selected.iter().map(|s| s.span_ref.span_id.as_str()).collect();
    assert_eq!(ids, vec!["a_0", "a_1", "b_0", "b_1"]);
}

#[test]
fn selection_of_nothing_is_empty() {
    let (selected, explanations) = select_with_mmr(vec![], 1000, &default_prefs(), true);
    assert!(selected.is_empty());
    assert!(explanations.is_empty());
}

#[test]
fn selection_with_zero_budget_is_empty() {
    let candidates = vec![mock_candidate("a", 0.9, 0.8, 10, "a.md", None)];
    let (selected, explanations) = select_with_mmr(candidates, 0, &default_prefs(), true);
    assert!(selected.is_empty());
    assert!(explanations.is_empty());
}

#[test]
fn smaller_fit_fills_the_rest_of_the_budget() {
    let mut big = mock_candidate("big", 0.9, 0.9, 800, "a.md", None);
    big.base_score = 900_000;
    let mut mid = mock_candidate("mid", 0.8, 0.8, 700, "a.md", None);
    mid.base_score = 800_000;
    let mut small = mock_candidate("small", 0.2, 0.2, 150, "a.md", None);
    small.base_score = 200_000;
    let (selected, explanations) =
        select_with_mmr(vec![small, mid, big], 1000, &default_prefs(), true);
    let ids: Vec<&str> = selected.iter().map(|s| s.span_ref.span_id.as_str()).collect();
    assert_eq!(ids, vec!["big", "small"]);
    assert_eq!(explanations.len(), 2);
    // lambda 0.3: 0.3 * 0.9 and 0.3 * 0.2, no embeddings and so no penalty
    assert_eq!(explanations[0].final_score, 270_000);
    assert_eq!(explanations[1].final_score, 60_000);
    assert_eq!(explanations[1].base_score, 200_000);
    assert_eq!(explanations[1].diversity_penalty, 0);
}

#[test]
fn memory_items_carry_their_preview_and_others_no_text() {
    let mut memory = mock_candidate("m", 0.9, 0.9, 100, "memory/u", None);
    memory.metadata.source_type = SourceType::Memory;
    memory.text_preview = "the whole memory".to_string();
    memory.base_score = 900_000;
    let mut other = mock_candidate("o", 0.5, 0.5, 100, "o.md", None);
    other.base_score = 500_000;
    let mut prefs = default_prefs();
    prefs.max_single_source_ratio = 1_000_000;
    let (selected, _) = select_with_mmr(vec![memory, other], 1000, &prefs, false);
    assert_eq!(selected.len(), 2);
    assert_eq!(selected[0].text, "the whole memory");
    assert_eq!(selected[1].text, "");
}

#[test]
fn ranking_orders_by_score_then_by_identity() {
    let mut a = mock_candidate("b", 0.1, 0.1, 1, "x", None);
    a.base_score = 5;
    let mut b = mock_candidate("a", 0.1, 0.1, 1, "x", None);
    b.base_score = 5;
    let mut c = mock_candidate("z", 0.1, 0.1, 1, "x", None);
    c.base_score = 9;
    let mut d = mock_candidate("a", 0.1, 0.1, 1, "w", None);
    d.base_score = 5;
    let sorted = rank_candidates(vec![a, b, c, d]);
    let ids: Vec<String> = sorted
        .iter()
        .map(|s| format!("{}/{}", s.span_ref.doc_version_id, s.span_ref.span_id))
        .collect();
    assert_eq!(ids, vec!["doc_x/z", "doc_w/a", "doc_x/a", "doc_x/b"]);
}

#[test]
fn pruning_keeps_the_two_hundred_best() {
    let mut candidates = vec![];
    for i in 0..250u64 {
        let mut c = mock_candidate(&format!("s{:03}", i), 0.5, 0.5, 0, "a.md", None);
        c.base_score = i;
        candidates.push(c);
    }
    let mut prefs = default_prefs();
    prefs.max_single_source_ratio = 1_000_000;
    let (selected, _) = select_with_mmr(candidates, 1000, &prefs, false);
    // spans of no cost never use up the budget: the whole pool is selected
    assert_eq!(selected.len(), 200);
    assert!(selected.iter().all(|s| s.span_ref.span_id.as_str() >= "s050"));
}

#[test]
fn best_by_mmr_prefers_the_cheaper_of_tied_candidates() {
    let mut a = mock_candidate("a", 0.5, 0.5, 300, "a.md", None);
    a.base_score = 500_000;
    let mut b = mock_candidate("b", 0.5, 0.5, 200, "a.md", None);
    b.base_score = 510_000;
    let mut c = mock_candidate("c", 0.5, 0.5, 250, "a.md", None);
    c.base_score = 900_000;
    // lambda 1.0: the MMR score is the base score
    let (idx, score, penalty) = find_best_mmr(&vec![a.clone(), b.clone()], &vec![], 1_000_000);
    assert_eq!(idx, 1);
    assert_eq!(score, 510_000);
    assert_eq!(penalty, 0);
    let (idx, score, _) = find_best_mmr(&vec![a, b, c], &vec![], 1_000_000);
    assert_eq!(idx, 2);
    assert_eq!(score, 900_000);
}

#[test]
fn mmr_penalizes_similarity_to_selected_spans() {
    let mut a = mock_candidate("a", 0.5, 0.5, 100, "a.md", Some(vec![1.0, 0.0]));
    a.base_score = 800_000;
    let mut b = mock_candidate("b", 0.5, 0.5, 100, "a.md", Some(vec![0.0, 1.0]));
    b.base_score = 600_000;
    let selected = vec![vec![1_000_000, 0]];
    // lambda 0.5: a = 0.4 - 0.5 * 1.0 = -0.1, b = 0.3 - 0.5 * 0.0 = 0.3
    let (idx, score, penalty) = find_best_mmr(&vec![a.clone(), b], &selected, 500_000);
    assert_eq!(idx, 1);
    assert_eq!(score, 300_000);
    assert_eq!(penalty, 0);
    let (idx, score, penalty) = find_best_mmr(&vec![a], &selected, 500_000);
    assert_eq!(idx, 0);
    assert_eq!(score, -100_000);
    assert_eq!(penalty, 500_000);
}

#[test]
fn smaller_span_is_the_last_of_the_best_that_fit() {
    let mut a = mock_candidate("a", 0.5, 0.5, 100, "a.md", None);
    a.base_score = 7;
    let mut b = mock_candidate("b", 0.5, 0.5, 500, "a.md", None);
    b.base_score = 9;
    let mut c = mock_candidate("c", 0.5, 0.5, 100, "a.md", None);
    c.base_score = 7;
    let pool = vec![a, b, c];
    assert_eq!(find_smaller_span(&pool, 100), Some(2));
    assert_eq!(find_smaller_span(&pool, 500), Some(1));
    assert_eq!(find_smaller_span(&pool, 99), None);
    assert_eq!(find_smaller_span(&vec![], 99), None);
}

#[test]
fn explanation_names_channels_section_stage_and_score() {
    let mut c = mock_candidate("a", 0.87, 0.5, 100, "a.md", None);
    c.scores.structural = 500_001;
    let lines = explain_candidate(&c, 123_456);
    assert_eq!(
        lines,
        vec![
            "semantic match: 0.87",
            "structural relevance: 0.50",
            "section: Test Section",
            "stage: research",
            "final MMR score: 0.12",
        ]
    );
    c.scores.lexical = 1_000_000;
    c.scores.semantic = 0;
    c.scores.structural = 0;
    c.metadata.section_title = None;
    c.metadata.stage = None;
    let lines = explain_candidate(&c, -5_000);
    assert_eq!(lines, vec!["keyword match: 1.00", "final MMR score: -0.01"]);
}

#[test]
fn explanations_follow_the_explain_flag() {
    let make = || {
        let mut v = vec![];
        for i in 0..4 {
            let mut c = mock_candidate(&format!("s{}", i), 0.5, 0.5, 100, "a.md", None);
            c.base_score = 100 * (i as u64 + 1);
            v.push(c);
        }
        v
    };
    let (selected, explanations) = select_with_mmr(make(), 250, &default_prefs(), true);
    assert_eq!(selected.len(), 2);
    assert_eq!(explanations.len(), 2);
    for (item, explanation) in selected.iter().zip(explanations.iter()) {
        assert_eq!(item.span_ref, explanation.span_ref);
    }
    let (selected, explanations) = select_with_mmr(make(), 250, &default_prefs(), false);
    assert_eq!(selected.len(), 2);
    assert!(explanations.is_empty());
}

#[test]
fn explanation_labels_the_graph_channel() {
    let mut c = mock_candidate("a", 0.2, 0.5, 100, "a.md", None);
    c.scores.structural = 0;
    c.scores.graph = 800_000;
    c.metadata.section_title = None;
    c.metadata.stage = None;
    let lines = explain_candidate(&c, 0);
    assert_eq!(lines, vec!["graph relevance: 0.80", "final MMR score: 0.00"]);
    c.scores.semantic = 600_000;
    c.scores.lexical = 700_000;
    c.scores.structural = 900_000;
    c.metadata.stage = Some("design".to_string());
    let lines = explain_candidate(&c, 1_000_000);
    assert_eq!(
        lines,
        vec![
            "semantic match: 0.60",
            "keyword match: 0.70",
            "structural relevance: 0.90",
            "graph relevance: 0.80",
            "stage: design",
            "final MMR score: 1.00",
        ]
    );
    c.scores.graph = 500_000;
    assert_eq!(explain_candidate(&c, 0).len(), 5);
}

#[test]
fn similarity_to_the_selected_spans_may_be_negative() {
    let mut away = mock_candidate("away", 0.5, 0.5, 100, "a.md", Some(vec![-1.0, 0.0]));
    away.base_score = 400_000;
    let selected = vec![vec![1_000_000, 0]];
    // lambda 0: the score is the penalty with its sign turned, 1.0 * -1.0
    let (idx, score, penalty) = find_best_mmr(&vec![away.clone()], &selected, 0);
    assert_eq!(idx, 0);
    assert_eq!(penalty, -1_000_000);
    assert_eq!(score, 1_000_000);
    // lambda 0.5: 0.5 * 0.4 - 0.5 * -1.0
    let (_, score, penalty) = find_best_mmr(&vec![away.clone()], &selected, 500_000);
    assert_eq!(penalty, -500_000);
    assert_eq!(score, 700_000);
    // the largest of several counts, as it is
    let selected = vec![vec![1_000_000, 0], vec![-600_000, 800_000], vec![0, -1_000_000]];
    let (_, _, penalty) = find_best_mmr(&vec![away.clone()], &selected, 0);
    assert_eq!(penalty, 600_000);
    let selected = vec![vec![1_000_000, 0], vec![600_000, 800_000]];
    let (_, _, penalty) = find_best_mmr(&vec![away.clone()], &selected, 0);
    assert_eq!(penalty, -600_000);
    // nothing selected, or no embedding: no penalty
    let (_, _, penalty) = find_best_mmr(&vec![away], &vec![], 0);
    assert_eq!(penalty, 0);
    let plain = mock_candidate("plain", 0.5, 0.5, 100, "a.md", None);
    let (_, _, penalty) = find_best_mmr(&vec![plain], &vec![vec![1_000_000, 0]], 0);
    assert_eq!(penalty, 0);
}

#[test]
fn a_span_that_points_away_from_the_selected_is_preferred() {
    let mut first = mock_candidate("first", 0.5, 0.5, 100, "a.md", Some(vec![1.0, 0.0]));
    first.base_score = 900_000;
    let mut same = mock_candidate("same", 0.5, 0.5, 100, "a.md", Some(vec![1.0, 0.0]));
    same.base_score = 800_000;
    let mut away = mock_candidate("away", 0.5, 0.5, 100, "a.md", Some(vec![-1.0, 0.0]));
    away.base_score = 100_000;
    let mut prefs = default_prefs();
    prefs.diversity_lambda = 500_000;
    let (selected, explanations) = select_with_mmr(vec![first, same, away], 200, &prefs, true);
    let ids: Vec<&str> = selected.iter().map(|s| s.span_ref.span_id.as_str()).collect();
    assert_eq!(ids, vec!["first", "away"]);
    // 0.5 * 0.1 - 0.5 * -1.0
    assert_eq!(explanations[1].final_score, 550_000);
    assert_eq!(explanations[1].diversity_penalty, -500_000);
}

#[test]
fn source_cap_counts_a_source_that_waits_in_the_pool() {
    // four spans of A are wanted first; B waits in the pool and is selected last
    let mut candidates = vec![];
    for i in 0..4 {
        let mut c = mock_candidate(&format!("a_{}", i), 0.9, 0.8, 10, "doc_A", None);
        c.base_score = 900_000 - i as u64;
        candidates.push(c);
    }
    let mut b = mock_candidate("b_0", 0.5, 0.5, 10, "doc_B", None);
    b.base_score = 100_000;
    candidates.push(b);
    let mut prefs = default_prefs();
    prefs.max_single_source_ratio = 800_000;
    prefs.diversity_lambda = 1_000_000;
    let (selected, _) = select_with_mmr(candidates, 10_000, &prefs, false);
    let ids: Vec<&str> = selected.iter().map(|s| s.span_ref.span_id.as_str()).collect();
    // the fourth pick is made under the guard: a fourth span of A would hold all tokens
    assert_eq!(ids, vec!["a_0", "a_1", "a_2", "b_0"]);
}
