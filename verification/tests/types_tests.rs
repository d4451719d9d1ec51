use oriongraph::types::{are_well_formed, duplicate_strings, is_embedding_bounded};
use oriongraph::{
    CandidateSpan, HardFilters, ScoreChannels, ScoreWeights, SoftPreferences, SourceType,
    SpanMetadata, SpanRef, StructHints, SCORE_SCALE,
};

fn span(doc: &str, id: &str) -> SpanRef {
    SpanRef {
        doc_version_id: doc.to_string(),
        span_id: id.to_string(),
        char_start: 1,
        char_end: 10,
        token_cost: 3,
    }
}

fn candidate(embedding: Option<Vec<i32>>, recency: u32) -> CandidateSpan {
    CandidateSpan {
        span_ref: span("d", "s"),
        scores: ScoreChannels::default(),
        embedding,
        text_preview: String::new(),
        metadata: SpanMetadata {
            filepath: "a".to_string(),
            workstream: None,
            stage: None,
            section_title: None,
            created_at: 0,
            recency_score: recency,
            source_type: SourceType::Context,
            tags: vec!["x".to_string()],
        },
        base_score: 0,
        mmr_score: 0,
    }
}

#[test]
fn span_key_holds_document_and_span() {
    let key = span("doc", "s1").key();
    assert_eq!(key.0, "doc");
    assert_eq!(key.1, "s1");
}

#[test]
fn same_span_goes_by_document_and_span_alone() {
    let a = span("doc", "s1");
    let mut b = span("doc", "s1");
    b.char_start = 99;
    b.token_cost = 0;
    assert!(a.same_span(&b));
    assert!(!a.same_span(&span("doc", "s2")));
    assert!(!a.same_span(&span("doc2", "s1")));
    assert!(!span("ab", "c").same_span(&span("a", "bc")));
    assert_eq!(a.duplicate(), a);
}

#[test]
fn defaults_of_the_preferences() {
    assert_eq!(SCORE_SCALE, 1_000_000);
    let prefs = SoftPreferences::default();
    assert_eq!(prefs.diversity_lambda, 300_000);
    assert_eq!(prefs.max_single_source_ratio, 350_000);
    assert!(!prefs.prefer_recent);
    assert!(prefs.prefer_stages.is_empty());
    assert_eq!(
        prefs.score_weights,
        ScoreWeights {
            semantic: 400_000,
            lexical: 200_000,
            structural: 200_000,
            graph: 100_000,
            recency: 50_000,
            stage_boost: 50_000,
        }
    );
    assert_eq!(ScoreWeights::default(), prefs.score_weights);
    assert_eq!(
        ScoreChannels::default(),
        ScoreChannels { semantic: 0, lexical: 0, structural: 0, graph: 0 }
    );
    let filters = HardFilters::default();
    assert!(filters.allowed_paths.is_empty());
    assert!(filters.excluded_paths.is_empty());
    assert!(filters.required_workstreams.is_empty());
    assert!(filters.max_doc_age_days.is_none());
    let hints = StructHints::default();
    assert!(hints.section_patterns.is_empty());
    assert!(hints.doc_types.is_empty());
}

#[test]
fn preferences_must_lie_in_their_ranges() {
    let mut prefs = SoftPreferences::default();
    assert!(prefs.is_well_formed());
    prefs.diversity_lambda = 1_000_000;
    prefs.max_single_source_ratio = 1_000_000;
    assert!(prefs.is_well_formed());
    prefs.diversity_lambda = 0;
    assert!(prefs.is_well_formed());
    prefs.max_single_source_ratio = 0;
    assert!(!prefs.is_well_formed());
    prefs.max_single_source_ratio = 1_000_001;
    assert!(!prefs.is_well_formed());
    prefs.max_single_source_ratio = 1;
    prefs.diversity_lambda = 1_000_001;
    assert!(!prefs.is_well_formed());
}

#[test]
fn candidates_must_have_bounded_embeddings_and_recency() {
    assert!(candidate(None, 0).is_well_formed());
    assert!(candidate(Some(vec![]), 1_000_000).is_well_formed());
    assert!(candidate(Some(vec![1_000_000, -1_000_000, 0]), 5).is_well_formed());
    assert!(!candidate(Some(vec![0, 1_000_001]), 5).is_well_formed());
    assert!(!candidate(Some(vec![-1_000_001]), 5).is_well_formed());
    assert!(!candidate(None, 1_000_001).is_well_formed());
    assert!(are_well_formed(&vec![candidate(None, 0), candidate(Some(vec![5]), 5)]));
    assert!(!are_well_formed(&vec![candidate(None, 0), candidate(Some(vec![-1_000_001]), 5)]));
    assert!(are_well_formed(&vec![]));
    assert!(is_embedding_bounded(&vec![3, -3]));
    assert!(!is_embedding_bounded(&vec![i32::MIN]));
}

#[test]
fn copies_hold_the_same_data() {
    let c = candidate(Some(vec![1, 2, 3]), 7);
    let d = c.duplicate();
    assert_eq!(d.span_ref, c.span_ref);
    assert_eq!(d.embedding, c.embedding);
    assert_eq!(d.metadata.tags, c.metadata.tags);
    assert_eq!(d.metadata.recency_score, 7);
    let m = c.metadata.duplicate();
    assert_eq!(m.filepath, "a");
    assert_eq!(m.source_type, SourceType::Context);
    let list = vec!["a".to_string(), "b".to_string()];
    assert_eq!(duplicate_strings(&list), list);
}
