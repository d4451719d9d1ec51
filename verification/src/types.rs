//! Core data types of the working-set compiler.
//!
//! Real-valued quantities (channel scores, weights, ratios, embedding
//! components) are stored as integers counted in millionths: the value `x`
//! is held as `x * SCORE_SCALE`.

use vstd::prelude::*;

verus! {

/// Number of fixed-point units that make up `1.0`.
pub const SCORE_SCALE: u32 = 1_000_000;

/// Immutable reference to a span within a specific document version.
/// Its identity is the pair `(doc_version_id, span_id)`.
#[derive(Debug, Clone, Hash, Eq, PartialEq)]
pub struct SpanRef {
    pub doc_version_id: String,
    pub span_id: String,
    pub char_start: usize,
    pub char_end: usize,
    pub token_cost: usize,
}

/// Identity of a span: `(doc_version_id, span_id)`.
#[derive(Debug, Clone, Hash, Eq, PartialEq)]
pub struct SpanKey(pub String, pub String);

impl View for SpanKey {
    type V = (Seq<char>, Seq<char>);

    open spec fn view(&self) -> (Seq<char>, Seq<char>) {
        (self.0@, self.1@)
    }
}

impl SpanRef {
    /// The identity of the span as a pair of character sequences.
    pub open spec fn identity(&self) -> (Seq<char>, Seq<char>) {
        (self.doc_version_id@, self.span_id@)
    }

    pub fn key(&self) -> (k: SpanKey)
        ensures
            k@ == self.identity(),
    {
        SpanKey(self.doc_version_id.clone(), self.span_id.clone())
    }

    /// Whether two references name the same span.
    pub fn same_span(&self, other: &SpanRef) -> (same: bool)
        ensures
            same == (self.identity() == other.identity()),
    {
        self.doc_version_id == other.doc_version_id && self.span_id == other.span_id
    }

    /// A copy of the reference.
    pub fn duplicate(&self) -> (copy: SpanRef)
        ensures
            copy == *self,
    {
        SpanRef {
            doc_version_id: self.doc_version_id.clone(),
            span_id: self.span_id.clone(),
            char_start: self.char_start,
            char_end: self.char_end,
            token_cost: self.token_cost,
        }
    }
}

/// Copies a list of strings.
pub fn duplicate_strings(list: &Vec<String>) -> (copy: Vec<String>)
    ensures
        copy@ == list@,
{
    let mut copy: Vec<String> = Vec::new();
    let mut i: usize = 0;
    while i < list.len()
        invariant
            i <= list.len(),
            copy@ == list@.take(i as int),
        decreases list.len() - i,
    {
        copy.push(list[i].clone());
        i += 1;
    }
    copy
}

/// Copies an optional string.
pub fn duplicate_optional_string(value: &Option<String>) -> (copy: Option<String>)
    ensures
        copy == *value,
{
    match value {
        Some(s) => Some(s.clone()),
        None => None,
    }
}

/// Where a span comes from.
#[derive(Debug, Clone, Copy, PartialEq, Eq, Structural)]
pub enum SourceType {
    Context,
    Knowledge,
    Workstream,
    Artifact,
    /// Conversation history of the current session.
    Session,
    /// Long-term memory of the user.
    Memory,
}

/// Four parallel scores, in millionths. Zero means that the channel did not
/// contribute. A channel holds scores up to `u32::MAX` millionths, a little
/// under 4295.
#[derive(Debug, Clone, Copy, PartialEq, Eq, Structural)]
pub struct ScoreChannels {
    pub semantic: u32,
    pub lexical: u32,
    pub structural: u32,
    pub graph: u32,
}

impl Default for ScoreChannels {
    fn default() -> (d: ScoreChannels)
        ensures
            d == (ScoreChannels { semantic: 0, lexical: 0, structural: 0, graph: 0 }),
    {
        ScoreChannels { semantic: 0, lexical: 0, structural: 0, graph: 0 }
    }
}

/// Descriptive data of a span. `filepath` is also the source key used for
/// diversity accounting.
#[derive(Debug, Clone)]
pub struct SpanMetadata {
    pub filepath: String,
    pub workstream: Option<String>,
    pub stage: Option<String>,
    pub section_title: Option<String>,
    /// Seconds since the epoch.
    pub created_at: i64,
    /// In millionths; at most `SCORE_SCALE` in a well-formed value.
    pub recency_score: u32,
    pub source_type: SourceType,
    pub tags: Vec<String>,
}

impl SpanMetadata {
    /// Two values hold the same data (lists are compared by their contents).
    pub open spec fn same_content(&self, other: &SpanMetadata) -> bool {
        &&& self.filepath == other.filepath
        &&& self.workstream == other.workstream
        &&& self.stage == other.stage
        &&& self.section_title == other.section_title
        &&& self.created_at == other.created_at
        &&& self.recency_score == other.recency_score
        &&& self.source_type == other.source_type
        &&& self.tags@ == other.tags@
    }

    /// A copy of the metadata.
    pub fn duplicate(&self) -> (copy: SpanMetadata)
        ensures
            copy.same_content(self),
    {
        SpanMetadata {
            filepath: self.filepath.clone(),
            workstream: duplicate_optional_string(&self.workstream),
            stage: duplicate_optional_string(&self.stage),
            section_title: duplicate_optional_string(&self.section_title),
            created_at: self.created_at,
            recency_score: self.recency_score,
            source_type: self.source_type,
            tags: duplicate_strings(&self.tags),
        }
    }
}

/// Copies an embedding.
pub fn duplicate_embedding(value: &Option<Vec<i32>>) -> (copy: Option<Vec<i32>>)
    ensures
        same_embedding(copy, *value),
{
    match value {
        Some(v) => {
            let mut out: Vec<i32> = Vec::new();
            let mut i: usize = 0;
            while i < v.len()
                invariant
                    i <= v.len(),
                    out@ == v@.take(i as int),
                decreases v.len() - i,
            {
                out.push(v[i]);
                i += 1;
            }
            assert(out@ =~= v@);
            Some(out)
        },
        None => None,
    }
}

/// Two optional embeddings hold the same components.
pub open spec fn same_embedding(a: Option<Vec<i32>>, b: Option<Vec<i32>>) -> bool {
    match (a, b) {
        (Some(x), Some(y)) => x@ == y@,
        (None, None) => true,
        _ => false,
    }
}

/// The components of an embedding all lie in `[-1.0, 1.0]`, as those of a
/// unit-length vector do.
pub open spec fn embedding_bounded(e: Seq<i32>) -> bool {
    forall|i: int| 0 <= i < e.len() ==> -(SCORE_SCALE as int) <= #[trigger] e[i] <= SCORE_SCALE as int
}

/// Decides `embedding_bounded`.
pub fn is_embedding_bounded(e: &Vec<i32>) -> (ok: bool)
    ensures
        ok == embedding_bounded(e@),
{
    let mut i: usize = 0;
    while i < e.len()
        invariant
            i <= e.len(),
            forall|j: int| 0 <= j < i ==> -(SCORE_SCALE as int) <= #[trigger] e@[j] <= SCORE_SCALE as int,
        decreases e.len() - i,
    {
        if e[i] > 1_000_000 || e[i] < -1_000_000 {
            assert(!(-(SCORE_SCALE as int) <= e@[i as int] <= SCORE_SCALE as int));
            return false;
        }
        i += 1;
    }
    true
}

/// Candidate span with multi-channel scores. Lives within one compilation.
#[derive(Debug, Clone)]
pub struct CandidateSpan {
    pub span_ref: SpanRef,
    pub scores: ScoreChannels,
    /// Unit-length vector, components in millionths.
    pub embedding: Option<Vec<i32>>,
    pub text_preview: String,
    pub metadata: SpanMetadata,
    /// Weighted sum of the normalized channels plus boosts, in millionths.
    pub base_score: u64,
    /// In millionths.
    pub mmr_score: i128,
}

impl CandidateSpan {
    /// The identity of the candidate's span.
    pub open spec fn identity(&self) -> (Seq<char>, Seq<char>) {
        self.span_ref.identity()
    }

    /// What the data model asks of a candidate: an embedding, where there is
    /// one, has components within `[-1.0, 1.0]`, and the recency score is at
    /// most `1.0`.
    pub open spec fn well_formed(&self) -> bool {
        &&& self.embedding matches Some(e) ==> embedding_bounded(e@)
        &&& self.metadata.recency_score <= SCORE_SCALE
    }

    /// Two values hold the same data (lists are compared by their contents).
    pub open spec fn same_content(&self, other: &CandidateSpan) -> bool {
        &&& self.span_ref == other.span_ref
        &&& self.scores == other.scores
        &&& same_embedding(self.embedding, other.embedding)
        &&& self.text_preview == other.text_preview
        &&& self.metadata.same_content(&other.metadata)
        &&& self.base_score == other.base_score
        &&& self.mmr_score == other.mmr_score
    }

    /// Decides `well_formed`.
    pub fn is_well_formed(&self) -> (ok: bool)
        ensures
            ok == self.well_formed(),
    {
        if self.metadata.recency_score > SCORE_SCALE {
            return false;
        }
        match &self.embedding {
            Some(e) => is_embedding_bounded(e),
            None => true,
        }
    }

    /// A copy of the candidate.
    pub fn duplicate(&self) -> (copy: CandidateSpan)
        ensures
            copy.same_content(self),
    {
        CandidateSpan {
            span_ref: self.span_ref.duplicate(),
            scores: self.scores,
            embedding: duplicate_embedding(&self.embedding),
            text_preview: self.text_preview.clone(),
            metadata: self.metadata.duplicate(),
            base_score: self.base_score,
            mmr_score: self.mmr_score,
        }
    }
}

/// All candidates of a list are well-formed.
pub open spec fn all_well_formed(candidates: Seq<CandidateSpan>) -> bool {
    forall|i: int| 0 <= i < candidates.len() ==> (#[trigger] candidates[i]).well_formed()
}

/// Decides `all_well_formed`.
pub fn are_well_formed(candidates: &Vec<CandidateSpan>) -> (ok: bool)
    ensures
        ok == all_well_formed(candidates@),
{
    let mut i: usize = 0;
    while i < candidates.len()
        invariant
            i <= candidates@.len(),
            forall|j: int| 0 <= j < i ==> (#[trigger] candidates@[j]).well_formed(),
        decreases candidates@.len() - i,
    {
        if !candidates[i].is_well_formed() {
            return false;
        }
        i += 1;
    }
    true
}

/// No two candidates of a list name the same span.
pub open spec fn distinct_spans(list: Seq<CandidateSpan>) -> bool {
    forall|i: int, j: int|
        0 <= i < j < list.len() ==> (#[trigger] list[i]).identity() != (#[trigger] list[j]).identity()
}

/// Item of the assembled working set.
#[derive(Debug, Clone)]
pub struct WSItem {
    pub span_ref: SpanRef,
    /// Session and memory items carry their text from the start; the others
    /// are empty until hydration.
    pub text: String,
    pub metadata: SpanMetadata,
}

/// The item is a span of the session.
pub open spec fn is_session(item: WSItem) -> bool {
    item.metadata.source_type == SourceType::Session
}

/// All items are spans of the session.
pub open spec fn all_session(items: Seq<WSItem>) -> bool {
    forall|i: int| 0 <= i < items.len() ==> is_session(#[trigger] items[i])
}

/// The session spans of a working set are exactly its first `n` spans.
pub open spec fn session_first(spans: Seq<WSItem>, n: nat) -> bool {
    forall|i: int| 0 <= i < spans.len() ==> (is_session(#[trigger] spans[i]) <==> i < n)
}

/// No two items name the same span.
pub open spec fn distinct_items(items: Seq<WSItem>) -> bool {
    forall|i: int, j: int|
        0 <= i < j < items.len() ==> (#[trigger] items[i]).span_ref.identity() != (
        #[trigger] items[j]).span_ref.identity()
}

#[derive(Debug, Clone)]
pub enum Compression {
    Bullets { lines: Vec<String>, backref: SpanRef },
    Summary { text: String, backref: SpanRef },
}

#[derive(Debug, Clone)]
pub struct StructHints {
    pub section_patterns: Vec<String>,
    pub doc_types: Vec<String>,
}

impl Default for StructHints {
    fn default() -> (d: StructHints)
        ensures
            d.section_patterns@.len() == 0,
            d.doc_types@.len() == 0,
    {
        StructHints { section_patterns: Vec::new(), doc_types: Vec::new() }
    }
}

#[derive(Debug, Clone)]
pub enum QuerySignal {
    NaturalLanguage(String),
    Keywords(Vec<String>),
    StructuralHints(StructHints),
    /// Holds the episode id.
    EpisodeContext(String),
}

/// Filters that generators apply; the compiler hands them through.
#[derive(Debug, Clone)]
pub struct HardFilters {
    pub allowed_paths: Vec<String>,
    pub excluded_paths: Vec<String>,
    pub max_doc_age_days: Option<u32>,
    pub required_workstreams: Vec<String>,
}

impl Default for HardFilters {
    fn default() -> (d: HardFilters)
        ensures
            d.allowed_paths@.len() == 0,
            d.excluded_paths@.len() == 0,
            d.max_doc_age_days is None,
            d.required_workstreams@.len() == 0,
    {
        HardFilters {
            allowed_paths: Vec::new(),
            excluded_paths: Vec::new(),
            max_doc_age_days: None,
            required_workstreams: Vec::new(),
        }
    }
}

/// Weights of the scoring formula, in millionths.
#[derive(Debug, Clone, Copy, PartialEq, Eq, Structural)]
pub struct ScoreWeights {
    pub semantic: u32,
    pub lexical: u32,
    pub structural: u32,
    pub graph: u32,
    pub recency: u32,
    pub stage_boost: u32,
}

impl Default for ScoreWeights {
    fn default() -> (d: ScoreWeights)
        ensures
            d == (ScoreWeights {
                semantic: 400_000,
                lexical: 200_000,
                structural: 200_000,
                graph: 100_000,
                recency: 50_000,
                stage_boost: 50_000,
            }),
    {
        ScoreWeights {
            semantic: 400_000,
            lexical: 200_000,
            structural: 200_000,
            graph: 100_000,
            recency: 50_000,
            stage_boost: 50_000,
        }
    }
}

#[derive(Debug, Clone)]
pub struct SoftPreferences {
    /// Weight of relevance against diversity in the MMR score, in millionths
    /// of `[0, 1]`.
    pub diversity_lambda: u32,
    /// Largest share of the selected tokens that one source may hold, in
    /// millionths of `(0, 1]`.
    pub max_single_source_ratio: u32,
    pub prefer_recent: bool,
    pub prefer_stages: Vec<String>,
    pub score_weights: ScoreWeights,
}

impl SoftPreferences {
    /// The ranges that the data model gives: `diversity_lambda` in `[0, 1]`
    /// and `max_single_source_ratio` in `(0, 1]`.
    pub open spec fn well_formed(&self) -> bool {
        &&& self.diversity_lambda <= SCORE_SCALE
        &&& 0 < self.max_single_source_ratio <= SCORE_SCALE
    }

    /// Decides `well_formed`.
    pub fn is_well_formed(&self) -> (ok: bool)
        ensures
            ok == self.well_formed(),
    {
        self.diversity_lambda <= SCORE_SCALE && 0 < self.max_single_source_ratio
            && self.max_single_source_ratio <= SCORE_SCALE
    }
}

impl Default for SoftPreferences {
    fn default() -> (d: SoftPreferences)
        ensures
            d.diversity_lambda == 300_000,
            d.max_single_source_ratio == 350_000,
            !d.prefer_recent,
            d.prefer_stages@.len() == 0,
            d.score_weights == (ScoreWeights {
                semantic: 400_000,
                lexical: 200_000,
                structural: 200_000,
                graph: 100_000,
                recency: 50_000,
                stage_boost: 50_000,
            }),
            d.well_formed(),
    {
        SoftPreferences {
            diversity_lambda: 300_000,
            max_single_source_ratio: 350_000,
            prefer_recent: false,
            prefer_stages: Vec::new(),
            score_weights: ScoreWeights::default(),
        }
    }
}

/// Request to compile a working set.
#[derive(Debug, Clone)]
pub struct CompileRequest {
    pub intent: String,
    pub task_id: Option<String>,
    pub session_id: Option<String>,
    pub user_id: Option<String>,
    pub query_signals: Vec<QuerySignal>,
    pub budget_tokens: usize,
    pub hard_filters: HardFilters,
    pub soft_prefs: SoftPreferences,
    pub explain: bool,
}

/// Why a span was selected.
#[derive(Debug, Clone)]
pub struct SpanExplanation {
    pub span_ref: SpanRef,
    /// MMR score of the round in which the span was accepted, in millionths.
    pub final_score: i128,
    pub base_score: u64,
    /// Diversity penalty of that round, in millionths.
    pub diversity_penalty: i128,
    pub reasons: Vec<String>,
}

#[derive(Debug)]
pub struct WorkingSet {
    pub spans: Vec<WSItem>,
    pub total_tokens: usize,
}

/// Tokens that one document version contributes to a working set.
#[derive(Debug, Clone)]
pub struct SourceTokens {
    pub doc_version_id: String,
    pub tokens: usize,
}

#[derive(Debug)]
pub struct CompileStats {
    pub candidates_generated: usize,
    pub candidates_after_dedup: usize,
    pub candidates_selected: usize,
    /// `total_tokens / budget_tokens`, in millionths.
    pub token_utilization: u64,
    /// One entry per document version, in the order of first appearance.
    pub source_distribution: Vec<SourceTokens>,
    pub generation_time_ms: u64,
}

/// Response from compilation.
#[derive(Debug)]
pub struct CompileResponse {
    pub workingset: WorkingSet,
    pub stats: CompileStats,
    pub rationale: Option<Vec<SpanExplanation>>,
}

/// Signals derived from a request.
#[derive(Debug, Clone)]
pub struct DerivedSignals {
    pub intent: String,
    pub intent_embedding: Vec<i32>,
    pub keywords: Vec<String>,
    pub struct_hints: StructHints,
    pub episode_context: Option<String>,
}

} // verus!
