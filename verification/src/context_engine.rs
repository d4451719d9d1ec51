//! The working-set compiler: from a request and what the collaborators
//! returned for it to the assembled working set.

use vstd::prelude::*;
use vstd::string::*;
use crate::enrichment::{
    is_memory_candidate, is_session_item, kept_memories, lemma_trimmed_suffix, memory_candidates,
    reserve_session_budget, session_cap, session_items, trimmed,
};
use crate::fusion::{
    fuse_candidates, fusion, in_list, in_lists, lemma_fusion, lemma_fusion_origin,
    lists_well_formed, stems_from, total_candidates,
};
use crate::hydration::{
    all_hydrated, compute_source_distribution, document_paths, files_needed, first_seen,
    hydrate_workingset, is_distribution, lemma_hydration_keeps_ledger, token_utilization,
    utilization, version_ledger, LoadedFile,
};
use crate::ledger::{item_ledger, lemma_item_ledger_concat, lemma_spent_concat, spent};
use crate::memory_client::{percent_encoded, MemoriesResponse, MemoryClient};
use crate::ranking::{member, within};
use crate::scoring::{
    candidate_base_score, compute_base_score, graph_values, lemma_extremes_of_same_values,
    lexical_values, normalize_scores, normalized_scores, occurs, semantic_values,
    structural_values, values_within, with_scores,
};
use crate::selection::{
    carries, carry_all, explain_all, lemma_selection_members, lemma_selection_order_free,
    select_with_mmr, selection, share_respected,
};
use crate::session_client::{SessionClient, SessionContextResponse};
use crate::text::{decimal, text_bytes, texts};
use crate::types::{
    all_session, all_well_formed, are_well_formed, distinct_items, distinct_spans, is_session,
    session_first, CandidateSpan, CompileRequest, CompileResponse, CompileStats, ScoreChannels,
    SoftPreferences, SourceType, SpanExplanation, WSItem,
};

verus! {

/// Why a compilation failed.
#[derive(Debug, Clone)]
pub enum CompileError {
    /// No generator returned a candidate. Holds the intent of the request.
    EmptyCandidates { intent: String },
}

impl CompileError {
    /// The text of the error.
    pub open spec fn message_text(&self) -> Seq<char> {
        match self {
            CompileError::EmptyCandidates { intent } => "No candidates found for intent: '"@
                + intent@ + "'"@,
        }
    }

    /// The error as a line of text, which names the intent.
    pub fn message(&self) -> (text: String)
        ensures
            text@ == self.message_text(),
    {
        match self {
            CompileError::EmptyCandidates { intent } => {
                let mut text = "No candidates found for intent: '".to_owned();
                text.append(intent.as_str());
                text.append("'");
                text
            },
        }
    }
}

/// What one generator returned.
#[derive(Debug, Clone)]
pub enum GeneratorOutcome {
    Candidates(Vec<CandidateSpan>),
    /// The generator failed. Holds what it reported.
    Failed(String),
}

/// The number of candidates to ask of each generator:
/// `max(200, budget_tokens / 50)`.
pub open spec fn top_k(budget_tokens: nat) -> nat {
    if budget_tokens / 50 > 200 {
        budget_tokens / 50
    } else {
        200
    }
}

/// The hint handed to each generator for the number of candidates.
pub fn estimate_top_k(budget_tokens: usize) -> (k: usize)
    ensures
        k == top_k(budget_tokens as nat),
{
    let k = budget_tokens / 50;
    if k > 200 {
        k
    } else {
        200
    }
}

/// The lists of the generators that succeeded, in the order of the
/// generators.
pub open spec fn successful(outcomes: Seq<GeneratorOutcome>) -> Seq<Vec<CandidateSpan>>
    decreases outcomes.len(),
{
    if outcomes.len() == 0 {
        Seq::empty()
    } else {
        let rest = successful(outcomes.drop_last());
        match outcomes.last() {
            GeneratorOutcome::Candidates(list) => rest.push(list),
            GeneratorOutcome::Failed(_) => rest,
        }
    }
}

/// Every list is empty.
pub open spec fn all_empty(lists: Seq<Vec<CandidateSpan>>) -> bool {
    forall|i: int| 0 <= i < lists.len() ==> (#[trigger] lists[i])@.len() == 0
}

/// Gathers what the generators returned. A generator that failed is left
/// out. The request fails, with the intent in the error, exactly if no
/// generator returned a candidate.
pub fn collect_candidates(outcomes: Vec<GeneratorOutcome>, intent: &String) -> (r: Result<
    Vec<Vec<CandidateSpan>>,
    CompileError,
>)
    ensures
        match r {
            Ok(lists) => lists@ == successful(outcomes@) && !all_empty(lists@),
            Err(CompileError::EmptyCandidates { intent: named }) => all_empty(
                successful(outcomes@),
            ) && named == *intent,
        },
{
    let mut lists: Vec<Vec<CandidateSpan>> = Vec::new();
    let mut any = false;
    let ghost all = outcomes@;
    for outcome in it: outcomes.into_iter()
        invariant
            it.seq() == all,
            lists@ == successful(all.take(it.index() as int)),
            any == !all_empty(lists@),
    {
        proof {
            let k = it.index() as int;
            assert(all.take(k + 1).drop_last() =~= all.take(k));
        }
        match outcome {
            GeneratorOutcome::Candidates(list) => {
                if list.len() > 0 {
                    any = true;
                }
                let ghost before = lists@;
                lists.push(list);
                proof {
                    if any {
                        if list@.len() > 0 {
                            assert(lists@[lists@.len() - 1]@.len() > 0);
                        } else {
                            let w = choose|i: int| 0 <= i < before.len() && (#[trigger] before[i])@.len() != 0;
                            assert(lists@[w] == before[w]);
                        }
                    } else {
                        assert forall|i: int| 0 <= i < lists@.len() implies (#[trigger] lists@[i])@.len()
                            == 0 by {
                            if i < before.len() {
                                assert(lists@[i] == before[i]);
                            }
                        }
                    }
                }
            },
            GeneratorOutcome::Failed(_) => {},
        }
    }
    proof {
        assert(all.take(all.len() as int) =~= all);
    }
    if any {
        Ok(lists)
    } else {
        Err(CompileError::EmptyCandidates { intent: intent.clone() })
    }
}

/// A candidate after scoring against the whole list: its channels are
/// normalized over the list, and its base score is computed from the
/// normalized channels.
pub open spec fn scored(c: CandidateSpan, all: Seq<CandidateSpan>, prefs: SoftPreferences) -> CandidateSpan {
    let normal = with_scores(c, normalized_scores(c.scores, all));
    CandidateSpan { base_score: candidate_base_score(normal, prefs) as u64, ..normal }
}

/// A list of candidates after scoring.
pub open spec fn scored_all(all: Seq<CandidateSpan>, prefs: SoftPreferences) -> Seq<CandidateSpan> {
    Seq::new(all.len(), |i: int| scored(all[i], all, prefs))
}

/// Scores all candidates: normalizes the channels over the list and sets
/// each base score.
pub fn score_candidates(candidates: &mut Vec<CandidateSpan>, prefs: &SoftPreferences)
    ensures
        final(candidates)@ == scored_all(old(candidates)@, *prefs),
{
    normalize_scores(candidates);
    let ghost normal = candidates@;
    let n = candidates.len();
    let mut i: usize = 0;
    while i < n
        invariant
            i <= n,
            n == candidates@.len(),
            n == normal.len(),
            n == old(candidates)@.len(),
            forall|j: int|
                0 <= j < n ==> #[trigger] normal[j] == with_scores(
                    old(candidates)@[j],
                    normalized_scores(old(candidates)@[j].scores, old(candidates)@),
                ),
            forall|j: int|
                0 <= j < i ==> #[trigger] candidates@[j] == scored(
                    old(candidates)@[j],
                    old(candidates)@,
                    *prefs,
                ),
            forall|j: int| i <= j < n ==> #[trigger] candidates@[j] == normal[j],
        decreases n - i,
    {
        let score = compute_base_score(&candidates[i], prefs);
        candidates[i].base_score = score;
        i += 1;
    }
    assert(candidates@ =~= scored_all(old(candidates)@, *prefs));
}

/// What the collaborators gave for one request.
#[derive(Debug)]
pub struct Gathered {
    /// The context of the session as working-set items, oldest first;
    /// empty where there is none.
    pub session_spans: Vec<WSItem>,
    /// What each generator returned, in the order of the generators.
    pub generated: Vec<GeneratorOutcome>,
    /// The memories of the user as candidates; empty where there are none.
    pub memory_candidates: Vec<CandidateSpan>,
}

/// The lists of the generators that succeeded, up to a point, are the first
/// of the lists of all that succeeded.
proof fn lemma_successful_prefix(outcomes: Seq<GeneratorOutcome>, k: int)
    requires
        0 <= k <= outcomes.len(),
    ensures
        successful(outcomes.take(k)).len() <= successful(outcomes).len(),
        successful(outcomes.take(k)) == successful(outcomes).take(
            successful(outcomes.take(k)).len() as int,
        ),
        total_candidates(successful(outcomes.take(k))) <= total_candidates(successful(outcomes)),
    decreases outcomes.len(),
{
    let all = successful(outcomes);
    if k == outcomes.len() {
        assert(outcomes.take(k) =~= outcomes);
        assert(all.take(all.len() as int) =~= all);
    } else {
        let front = outcomes.drop_last();
        lemma_successful_prefix(front, k);
        assert(front.take(k) =~= outcomes.take(k));
        let part = successful(outcomes.take(k));
        let mid = successful(front);
        assert(part =~= all.take(part.len() as int)) by {
            assert forall|i: int| 0 <= i < part.len() implies part[i] == all[i] by {
                assert(part[i] == mid.take(part.len() as int)[i]);
                assert(mid[i] == all[i]);
            }
        }
        match outcomes.last() {
            GeneratorOutcome::Candidates(list) => {
                assert(all.drop_last() =~= mid);
            },
            GeneratorOutcome::Failed(_) => {},
        }
    }
}

/// The lists of candidates that go into fusion: those of the generators
/// that succeeded and, where there are memories, the memories as one more
/// list.
pub open spec fn candidate_lists(
    generated: Seq<GeneratorOutcome>,
    memory_candidates: Vec<CandidateSpan>,
) -> Seq<Vec<CandidateSpan>> {
    if memory_candidates@.len() > 0 {
        successful(generated).push(memory_candidates)
    } else {
        successful(generated)
    }
}

impl Gathered {
    /// What a compilation asks of the gathered candidates: that they are
    /// well-formed, and that their number fits the machine.
    pub open spec fn admissible(&self) -> bool {
        &&& lists_well_formed(successful(self.generated@))
        &&& all_well_formed(self.memory_candidates@)
        &&& total_candidates(candidate_lists(self.generated@, self.memory_candidates))
            <= usize::MAX
    }

    /// Decides `admissible`.
    pub fn is_admissible(&self) -> (ok: bool)
        ensures
            ok == self.admissible(),
    {
        let ghost outcomes = self.generated@;
        let ghost lists = candidate_lists(outcomes, self.memory_candidates);
        proof {
            if self.memory_candidates@.len() > 0 {
                assert(lists.drop_last() =~= successful(outcomes));
            }
            assert(total_candidates(lists) == total_candidates(successful(outcomes))
                + self.memory_candidates@.len());
        }
        if !are_well_formed(&self.memory_candidates) {
            return false;
        }
        let mut total: usize = self.memory_candidates.len();
        let mut i: usize = 0;
        assert(successful(outcomes.take(0)) =~= Seq::empty());
        while i < self.generated.len()
            invariant
                i <= outcomes.len(),
                outcomes == self.generated@,
                lists == candidate_lists(outcomes, self.memory_candidates),
                total_candidates(lists) == total_candidates(successful(outcomes))
                    + self.memory_candidates@.len(),
                all_well_formed(self.memory_candidates@),
                lists_well_formed(successful(outcomes.take(i as int))),
                total == total_candidates(successful(outcomes.take(i as int)))
                    + self.memory_candidates@.len(),
            decreases outcomes.len() - i,
        {
            proof {
                assert(outcomes.take(i + 1).drop_last() =~= outcomes.take(i as int));
                lemma_successful_prefix(outcomes, i + 1);
            }
            let ghost part = successful(outcomes.take(i + 1));
            let ghost before = successful(outcomes.take(i as int));
            match &self.generated[i] {
                GeneratorOutcome::Candidates(list) => {
                    proof {
                        assert(part == before.push(*list));
                        assert(part.drop_last() =~= before);
                        assert(part.last() == *list);
                        assert(total_candidates(part) == total_candidates(before) + list@.len());
                        assert(successful(outcomes)[part.len() - 1] == *list);
                    }
                    if !are_well_formed(list) {
                        return false;
                    }
                    match total.checked_add(list.len()) {
                        Some(sum) => {
                            total = sum;
                        },
                        None => {
                            return false;
                        },
                    }
                    proof {
                        assert forall|j: int| 0 <= j < part.len() implies all_well_formed(
                            (#[trigger] part[j])@,
                        ) by {
                            if j < part.len() - 1 {
                                assert(part[j] == before[j]);
                            }
                        }
                    }
                },
                GeneratorOutcome::Failed(_) => {},
            }
            i += 1;
        }
        proof {
            assert(outcomes.take(outcomes.len() as int) =~= outcomes);
        }
        true
    }
}

/// The budget that is left for retrieval when the session context has
/// taken its part.
pub open spec fn retrieval_budget(session_spans: Seq<WSItem>, budget_tokens: nat) -> nat {
    (budget_tokens - spent(item_ledger(trimmed(session_spans, session_cap(budget_tokens))))) as nat
}

/// The candidates that a compilation picks: the lists are fused, the fused
/// candidates scored, and the selection made within the retrieval budget.
pub open spec fn compiled_picks(req: CompileRequest, gathered: Gathered) -> Seq<CandidateSpan> {
    selection(
        scored_all(
            fusion(candidate_lists(gathered.generated@, gathered.memory_candidates)),
            req.soft_prefs,
        ),
        retrieval_budget(gathered.session_spans@, req.budget_tokens as nat),
        req.soft_prefs.diversity_lambda,
        req.soft_prefs.max_single_source_ratio,
    )
}

/// No candidate of any list claims to be a span of the session.
pub open spec fn no_session_candidates(lists: Seq<Vec<CandidateSpan>>) -> bool {
    forall|l: int, k: int|
        0 <= l < lists.len() && 0 <= k < lists[l]@.len() ==> (#[trigger] lists[l]@[k]).metadata.source_type
            != SourceType::Session
}

/// No candidate of any list names the span of one of the items.
pub open spec fn apart(items: Seq<WSItem>, lists: Seq<Vec<CandidateSpan>>) -> bool {
    forall|i: int, l: int, k: int|
        0 <= i < items.len() && 0 <= l < lists.len() && 0 <= k < lists[l]@.len() ==> (
        #[trigger] items[i]).span_ref.identity() != (#[trigger] lists[l]@[k]).identity()
}

/// What a compilation picks holds no span twice, and every picked
/// candidate stems from a candidate of one of the lists.
pub proof fn lemma_compiled_picks(req: CompileRequest, gathered: Gathered)
    ensures
        distinct_spans(compiled_picks(req, gathered)),
        forall|i: int|
            0 <= i < compiled_picks(req, gathered).len() ==> in_lists(
                candidate_lists(gathered.generated@, gathered.memory_candidates),
                #[trigger] compiled_picks(req, gathered)[i],
            ),
{
    let lists = candidate_lists(gathered.generated@, gathered.memory_candidates);
    let fused = fusion(lists);
    let pool = scored_all(fused, req.soft_prefs);
    let budget = retrieval_budget(gathered.session_spans@, req.budget_tokens as nat);
    let picks = compiled_picks(req, gathered);
    lemma_fusion(lists);
    assert(distinct_spans(pool)) by {
        assert forall|i: int, j: int| 0 <= i < j < pool.len() implies (#[trigger] pool[i]).identity()
            != (#[trigger] pool[j]).identity() by {
            assert(fused[i].identity() != fused[j].identity());
        }
    }
    lemma_selection_members(
        pool,
        budget,
        req.soft_prefs.diversity_lambda,
        req.soft_prefs.max_single_source_ratio,
    );
    assert forall|i: int| 0 <= i < picks.len() implies in_lists(lists, #[trigger] picks[i]) by {
        assert(member(pool, picks[i]));
        let j = choose|j: int| 0 <= j < pool.len() && #[trigger] pool[j] == picks[i];
        lemma_fusion_origin(lists, j);
        let l = choose|l: int| 0 <= l < lists.len() && in_list((#[trigger] lists[l])@, fused[j]);
        let k = choose|k: int|
            0 <= k < lists[l]@.len() && stems_from(fused[j], #[trigger] lists[l]@[k]);
        assert(stems_from(picks[i], lists[l]@[k]));
        assert(in_list(lists[l]@, picks[i]));
    }
}

proof fn lemma_values_within(a: Seq<CandidateSpan>, b: Seq<CandidateSpan>)
    requires
        within(a, b),
    ensures
        values_within(semantic_values(a), semantic_values(b)),
        values_within(lexical_values(a), lexical_values(b)),
        values_within(structural_values(a), structural_values(b)),
        values_within(graph_values(a), graph_values(b)),
{
    assert forall|i: int| 0 <= i < semantic_values(a).len() implies occurs(
        semantic_values(b),
        #[trigger] semantic_values(a)[i],
    ) by {
        assert(member(b, a[i]));
        let j = choose|j: int| 0 <= j < b.len() && #[trigger] b[j] == a[i];
        assert(semantic_values(b)[j] == semantic_values(a)[i]);
    }
    assert forall|i: int| 0 <= i < lexical_values(a).len() implies occurs(
        lexical_values(b),
        #[trigger] lexical_values(a)[i],
    ) by {
        assert(member(b, a[i]));
        let j = choose|j: int| 0 <= j < b.len() && #[trigger] b[j] == a[i];
        assert(lexical_values(b)[j] == lexical_values(a)[i]);
    }
    assert forall|i: int| 0 <= i < structural_values(a).len() implies occurs(
        structural_values(b),
        #[trigger] structural_values(a)[i],
    ) by {
        assert(member(b, a[i]));
        let j = choose|j: int| 0 <= j < b.len() && #[trigger] b[j] == a[i];
        assert(structural_values(b)[j] == structural_values(a)[i]);
    }
    assert forall|i: int| 0 <= i < graph_values(a).len() implies occurs(
        graph_values(b),
        #[trigger] graph_values(a)[i],
    ) by {
        assert(member(b, a[i]));
        let j = choose|j: int| 0 <= j < b.len() && #[trigger] b[j] == a[i];
        assert(graph_values(b)[j] == graph_values(a)[i]);
    }
}

proof fn lemma_same_extremes(a: Seq<CandidateSpan>, b: Seq<CandidateSpan>)
    requires
        within(a, b),
        within(b, a),
    ensures
        forall|s: ScoreChannels| #[trigger] normalized_scores(s, a) == normalized_scores(s, b),
{
    lemma_values_within(a, b);
    lemma_values_within(b, a);
    lemma_extremes_of_same_values(semantic_values(a), semantic_values(b));
    lemma_extremes_of_same_values(lexical_values(a), lexical_values(b));
    lemma_extremes_of_same_values(structural_values(a), structural_values(b));
    lemma_extremes_of_same_values(graph_values(a), graph_values(b));
}

/// Scoring and selection do not depend on the order of the fused
/// candidates: two fused lists without duplicates that hold the same
/// candidates give the same picks.
pub proof fn lemma_picks_order_free(
    a: Seq<CandidateSpan>,
    b: Seq<CandidateSpan>,
    prefs: SoftPreferences,
    budget: nat,
)
    requires
        distinct_spans(a),
        distinct_spans(b),
        within(a, b),
        within(b, a),
    ensures
        selection(
            scored_all(a, prefs),
            budget,
            prefs.diversity_lambda,
            prefs.max_single_source_ratio,
        ) == selection(
            scored_all(b, prefs),
            budget,
            prefs.diversity_lambda,
            prefs.max_single_source_ratio,
        ),
{
    let sa = scored_all(a, prefs);
    let sb = scored_all(b, prefs);
    lemma_same_extremes(a, b);
    assert forall|i: int| 0 <= i < sa.len() implies member(sb, #[trigger] sa[i]) by {
        assert(member(b, a[i]));
        let j = choose|j: int| 0 <= j < b.len() && #[trigger] b[j] == a[i];
        assert(sb[j] == sa[i]);
    }
    assert forall|i: int| 0 <= i < sb.len() implies member(sa, #[trigger] sb[i]) by {
        assert(member(a, b[i]));
        let j = choose|j: int| 0 <= j < a.len() && #[trigger] a[j] == b[i];
        assert(sa[j] == sb[i]);
    }
    assert forall|i: int, j: int| 0 <= i < j < sa.len() implies (#[trigger] sa[i]).identity()
        != (#[trigger] sa[j]).identity() by {
        assert(a[i].identity() != a[j].identity());
    }
    assert forall|i: int, j: int| 0 <= i < j < sb.len() implies (#[trigger] sb[i]).identity()
        != (#[trigger] sb[j]).identity() by {
        assert(b[i].identity() != b[j].identity());
    }
    lemma_selection_order_free(
        sa,
        sb,
        budget,
        prefs.diversity_lambda,
        prefs.max_single_source_ratio,
    );
}

/// A compilation does not depend on the order in which the generators
/// answer, where the order does not change which candidates the fusion
/// holds: two gatherings with the same session spans whose fused lists hold
/// the same candidates give the same picks. (Where two lists give one span
/// different metadata, the fusion keeps the first, and the order matters.)
pub proof fn lemma_compile_order_free(req: CompileRequest, first: Gathered, second: Gathered)
    requires
        first.session_spans@ == second.session_spans@,
        within(
            fusion(candidate_lists(first.generated@, first.memory_candidates)),
            fusion(candidate_lists(second.generated@, second.memory_candidates)),
        ),
        within(
            fusion(candidate_lists(second.generated@, second.memory_candidates)),
            fusion(candidate_lists(first.generated@, first.memory_candidates)),
        ),
    ensures
        compiled_picks(req, first) == compiled_picks(req, second),
{
    let a = fusion(candidate_lists(first.generated@, first.memory_candidates));
    let b = fusion(candidate_lists(second.generated@, second.memory_candidates));
    lemma_fusion(candidate_lists(first.generated@, first.memory_candidates));
    lemma_fusion(candidate_lists(second.generated@, second.memory_candidates));
    lemma_picks_order_free(
        a,
        b,
        req.soft_prefs,
        retrieval_budget(first.session_spans@, req.budget_tokens as nat),
    );
}

/// A working set made of the session spans that stay and of items that
/// carry the picked candidates has its session spans first, where only the
/// session spans claim to be of the session, and holds no span twice,
/// where the session spans hold none twice and none that a candidate
/// names.
pub proof fn lemma_assembled(
    req: CompileRequest,
    gathered: Gathered,
    spans: Seq<WSItem>,
    session_count: nat,
)
    requires
        session_count <= spans.len(),
        spans.take(session_count as int) == trimmed(
            gathered.session_spans@,
            session_cap(req.budget_tokens as nat),
        ),
        carry_all(spans.skip(session_count as int), compiled_picks(req, gathered)),
    ensures
        all_session(gathered.session_spans@) && no_session_candidates(
            candidate_lists(gathered.generated@, gathered.memory_candidates),
        ) ==> session_first(spans, session_count),
        distinct_items(gathered.session_spans@) && apart(
            gathered.session_spans@,
            candidate_lists(gathered.generated@, gathered.memory_candidates),
        ) ==> distinct_items(spans),
{
    let lists = candidate_lists(gathered.generated@, gathered.memory_candidates);
    let session = gathered.session_spans@;
    let kept = trimmed(session, session_cap(req.budget_tokens as nat));
    let picks = compiled_picks(req, gathered);
    let n = session_count as int;
    lemma_trimmed_suffix(session, session_cap(req.budget_tokens as nat));
    lemma_compiled_picks(req, gathered);
    let off = session.len() - kept.len();
    assert forall|i: int| 0 <= i < n implies #[trigger] spans[i] == session[off + i] by {
        assert(spans.take(n)[i] == spans[i]);
        assert(kept[i] == session.skip(off)[i]);
    }
    assert forall|i: int| n <= i < spans.len() implies carries(#[trigger] spans[i], picks[i - n])
        && in_lists(lists, picks[i - n]) by {
        assert(spans.skip(n)[i - n] == spans[i]);
    }
    if all_session(session) && no_session_candidates(lists) {
        assert forall|i: int| 0 <= i < spans.len() implies (is_session(#[trigger] spans[i]) <==> i
            < n) by {
            if i >= n {
                let x = picks[i - n];
                let l = choose|l: int| 0 <= l < lists.len() && in_list((#[trigger] lists[l])@, x);
                let k = choose|k: int| 0 <= k < lists[l]@.len() && stems_from(x, #[trigger] lists[l]@[k]);
                assert(lists[l]@[k].metadata.source_type != SourceType::Session);
            } else {
                assert(is_session(session[off + i]));
            }
        }
    }
    if distinct_items(session) && apart(session, lists) {
        assert forall|i: int, j: int| 0 <= i < j < spans.len() implies (#[trigger] spans[i]).span_ref.identity()
            != (#[trigger] spans[j]).span_ref.identity() by {
            if j < n {
                assert(session[off + i].span_ref.identity() != session[off + j].span_ref.identity());
            } else if i < n {
                let x = picks[j - n];
                let l = choose|l: int| 0 <= l < lists.len() && in_list((#[trigger] lists[l])@, x);
                let k = choose|k: int| 0 <= k < lists[l]@.len() && stems_from(x, #[trigger] lists[l]@[k]);
                assert(session[off + i].span_ref.identity() != lists[l]@[k].identity());
            } else {
                assert(picks[i - n].identity() != picks[j - n].identity());
            }
        }
    }
}

/// Scoring keeps well-formed candidates well-formed.
pub proof fn lemma_scored_well_formed(all: Seq<CandidateSpan>, prefs: SoftPreferences)
    requires
        all_well_formed(all),
    ensures
        all_well_formed(scored_all(all, prefs)),
{
    assert forall|i: int| 0 <= i < scored_all(all, prefs).len() implies (#[trigger] scored_all(
        all,
        prefs,
    )[i]).well_formed() by {
        assert(all[i].well_formed());
    }
}

fn count_candidates(lists: &Vec<Vec<CandidateSpan>>) -> (total: usize)
    requires
        total_candidates(lists@) <= usize::MAX,
    ensures
        total == total_candidates(lists@),
{
    let mut total: usize = 0;
    let mut i: usize = 0;
    while i < lists.len()
        invariant
            i <= lists@.len(),
            total_candidates(lists@) <= usize::MAX,
            total == total_candidates(lists@.take(i as int)),
        decreases lists@.len() - i,
    {
        proof {
            assert(lists@.take(i + 1).drop_last() =~= lists@.take(i as int));
            lemma_total_candidates_prefix(lists@, i + 1);
        }
        total = total + lists[i].len();
        i += 1;
    }
    assert(lists@.take(lists@.len() as int) =~= lists@);
    total
}

proof fn lemma_total_candidates_prefix(lists: Seq<Vec<CandidateSpan>>, n: int)
    requires
        0 <= n <= lists.len(),
    ensures
        total_candidates(lists.take(n)) <= total_candidates(lists),
    decreases lists.len(),
{
    if n < lists.len() {
        lemma_total_candidates_prefix(lists.drop_last(), n);
        assert(lists.drop_last().take(n) =~= lists.take(n));
    } else {
        assert(lists.take(n) =~= lists);
    }
}

/// A working set that is selected and not yet hydrated: the session spans
/// that stay, followed by the spans that the selection picked.
#[derive(Debug)]
pub struct WorkingSetPlan {
    spans: Vec<WSItem>,
    session_count: usize,
    rationale: Option<Vec<SpanExplanation>>,
    budget_tokens: usize,
    retrieval_budget: usize,
    max_single_source_ratio: u32,
    candidates_generated: usize,
    candidates_after_dedup: usize,
}

/// The explanations belong to the given spans, one for one.
pub open spec fn explanations_match(explanations: Seq<SpanExplanation>, spans: Seq<WSItem>) -> bool {
    &&& explanations.len() == spans.len()
    &&& forall|i: int|
        0 <= i < spans.len() ==> (#[trigger] explanations[i]).span_ref == spans[i].span_ref
}

impl WorkingSetPlan {
    #[verifier::type_invariant]
    spec fn sound(&self) -> bool {
        &&& self.session_count <= self.spans@.len()
        &&& spent(item_ledger(self.spans@)) <= self.budget_tokens
        &&& share_respected(
            item_ledger(self.spans@.skip(self.session_count as int)),
            self.retrieval_budget as nat,
            self.max_single_source_ratio,
        )
        &&& self.rationale matches Some(list) ==> explanations_match(
            list@,
            self.spans@.skip(self.session_count as int),
        )
    }

    /// All spans of the plan: first those of the session, then the selected.
    pub closed spec fn spans(&self) -> Seq<WSItem> {
        self.spans@
    }

    /// The session spans, which stand first.
    pub closed spec fn session_part(&self) -> Seq<WSItem> {
        self.spans@.take(self.session_count as int)
    }

    /// The spans that the selection picked, which follow the session spans.
    pub closed spec fn selected_part(&self) -> Seq<WSItem> {
        self.spans@.skip(self.session_count as int)
    }

    /// The explanations of the selected spans, where they were asked for.
    pub closed spec fn rationale(&self) -> Option<Vec<SpanExplanation>> {
        self.rationale
    }

    /// The token budget of the request.
    pub closed spec fn budget(&self) -> nat {
        self.budget_tokens as nat
    }

    /// The budget that the selection had, after the session took its part.
    pub closed spec fn retrieval(&self) -> nat {
        self.retrieval_budget as nat
    }

    /// The largest share of the selected tokens that one source may hold.
    pub closed spec fn source_cap(&self) -> u32 {
        self.max_single_source_ratio
    }

    /// The number of candidates of all lists together, before fusion.
    pub closed spec fn generated(&self) -> nat {
        self.candidates_generated as nat
    }

    /// The number of candidates after fusion.
    pub closed spec fn after_dedup(&self) -> nat {
        self.candidates_after_dedup as nat
    }

    /// The spans of the plan, not yet hydrated: the session spans followed
    /// by the selected spans. Together they stay within the budget.
    pub fn items(&self) -> (items: &Vec<WSItem>)
        ensures
            items@ == self.spans(),
            self.spans() == self.session_part() + self.selected_part(),
            spent(item_ledger(self.spans())) <= self.budget(),
            share_respected(item_ledger(self.selected_part()), self.retrieval(), self.source_cap()),
    {
        proof {
            use_type_invariant(self);
            assert(self.spans@ =~= self.spans@.take(self.session_count as int) + self.spans@.skip(
                self.session_count as int,
            ));
        }
        &self.spans
    }

    /// The explanations of the selected spans, one for each, where they
    /// were asked for.
    pub fn explanations(&self) -> (list: &Option<Vec<SpanExplanation>>)
        ensures
            *list == self.rationale(),
            *list matches Some(l) ==> explanations_match(l@, self.selected_part()),
    {
        proof {
            use_type_invariant(self);
        }
        &self.rationale
    }

    /// The number of session spans at the front of the plan.
    pub fn session_len(&self) -> (n: usize)
        ensures
            n == self.session_part().len(),
            n <= self.spans().len(),
    {
        proof {
            use_type_invariant(self);
        }
        self.session_count
    }

    /// The paths of the documents that hydration needs, each once.
    pub fn files_needed(&self) -> (paths: Vec<String>)
        ensures
            texts(paths@) == first_seen(document_paths(self.spans())),
    {
        files_needed(&self.spans)
    }

    /// Completes the compilation: hydrates the spans from the documents
    /// handed in and draws up the statistics.
    ///
    /// The working set holds the spans of the plan in their order, the
    /// session spans first, and stays within the budget. The rationale holds
    /// one explanation for each selected span where explanations were asked
    /// for, and is absent otherwise.
    pub fn complete(self, files: &Vec<LoadedFile>, generation_time_ms: u64) -> (response:
        CompileResponse)
        ensures
            all_hydrated(response.workingset.spans@, self.spans(), files@),
            response.workingset.total_tokens == spent(item_ledger(response.workingset.spans@)),
            response.workingset.total_tokens <= self.budget(),
            response.rationale == self.rationale(),
            response.rationale matches Some(list) ==> explanations_match(
                list@,
                response.workingset.spans@.skip(self.session_part().len() as int),
            ),
            response.stats.candidates_generated == self.generated(),
            response.stats.candidates_after_dedup == self.after_dedup(),
            response.stats.candidates_selected == response.workingset.spans@.len(),
            response.stats.token_utilization == utilization(
                response.workingset.total_tokens as nat,
                self.budget(),
            ),
            is_distribution(
                response.stats.source_distribution@,
                version_ledger(response.workingset.spans@),
            ),
            response.stats.generation_time_ms == generation_time_ms,
            share_respected(
                item_ledger(response.workingset.spans@.skip(self.session_part().len() as int)),
                self.retrieval(),
                self.source_cap(),
            ),
            forall|n: nat|
                session_first(self.spans(), n) ==> session_first(response.workingset.spans@, n),
            distinct_items(self.spans()) ==> distinct_items(response.workingset.spans@),
    {
        proof {
            use_type_invariant(&self);
        }
        let ghost planned = self.spans@;
        let WorkingSetPlan {
            spans,
            session_count,
            rationale,
            budget_tokens,
            retrieval_budget: _,
            max_single_source_ratio: _,
            candidates_generated,
            candidates_after_dedup,
        } = self;
        let workingset = hydrate_workingset(spans, files);
        proof {
            lemma_hydration_keeps_ledger(workingset.spans@, planned, files@);
            lemma_same_costs(workingset.spans@);
            assert(item_ledger(workingset.spans@.skip(session_count as int)) =~= item_ledger(
                planned.skip(session_count as int),
            ));
            match &rationale {
                Some(list) => {
                    assert forall|i: int|
                        0 <= i < workingset.spans@.skip(session_count as int).len() implies (
                    #[trigger] list@[i]).span_ref == workingset.spans@.skip(
                        session_count as int,
                    )[i].span_ref by {
                        assert(planned.skip(session_count as int)[i] == planned[session_count + i]);
                    }
                },
                None => {},
            }
        }
        let source_distribution = compute_source_distribution(&workingset);
        let token_utilization = token_utilization(workingset.total_tokens, budget_tokens);
        let stats = CompileStats {
            candidates_generated,
            candidates_after_dedup,
            candidates_selected: workingset.spans.len(),
            token_utilization,
            source_distribution,
            generation_time_ms,
        };
        CompileResponse { workingset, stats, rationale }
    }
}

/// Whatever key the ledger of a list of items is kept by, it holds the
/// same tokens.
pub proof fn lemma_same_costs(items: Seq<WSItem>)
    ensures
        spent(version_ledger(items)) == spent(item_ledger(items)),
    decreases items.len(),
{
    if items.len() > 0 {
        assert(version_ledger(items).drop_last() =~= version_ledger(items.drop_last()));
        assert(item_ledger(items).drop_last() =~= item_ledger(items.drop_last()));
        lemma_same_costs(items.drop_last());
    }
}

/// Compiles working sets. It holds the addresses of the session store and
/// of the memory store, where they are configured; talking to them and to
/// the generators is left to the caller.
#[derive(Debug, Clone)]
pub struct ContextEngine {
    pub session_client: Option<SessionClient>,
    pub memory_client: Option<MemoryClient>,
}

/// The number of recent session spans that a compilation asks for.
pub const SESSION_CONTEXT_LIMIT: usize = 10;

/// The number of memories that a compilation asks for where nothing else
/// is configured.
pub const DEFAULT_MEMORY_CANDIDATES: usize = 10;

/// The number of memories to ask for: what is configured, or ten.
pub fn memory_limit(configured: Option<usize>) -> (limit: usize)
    ensures
        limit == match configured {
            Some(n) => n,
            None => DEFAULT_MEMORY_CANDIDATES,
        },
{
    match configured {
        Some(n) => n,
        None => DEFAULT_MEMORY_CANDIDATES,
    }
}

impl ContextEngine {
    /// Creates an engine with the session store and the memory store at the
    /// given addresses.
    pub fn new(session_api_url: Option<String>, memory_api_url: Option<String>) -> (engine:
        ContextEngine)
        ensures
            match (session_api_url, engine.session_client) {
                (Some(url), Some(client)) => client.base() == url@,
                (None, None) => true,
                _ => false,
            },
            match (memory_api_url, engine.memory_client) {
                (Some(url), Some(client)) => client.base() == url@,
                (None, None) => true,
                _ => false,
            },
    {
        ContextEngine {
            session_client: match session_api_url {
                Some(url) => Some(SessionClient::new(url)),
                None => None,
            },
            memory_client: match memory_api_url {
                Some(url) => Some(MemoryClient::new(url)),
                None => None,
            },
        }
    }

    /// Creates an engine without session store and memory store.
    pub fn new_simple() -> (engine: ContextEngine)
        ensures
            engine.session_client is None,
            engine.memory_client is None,
    {
        ContextEngine { session_client: None, memory_client: None }
    }

    /// The address at which to ask for the context of the request's
    /// session; none where the request names no session or no session store
    /// is configured. Up to ten of the most recent spans are asked for.
    pub fn session_request(&self, req: &CompileRequest) -> (url: Option<String>)
        ensures
            match (self.session_client, req.session_id) {
                (Some(client), Some(id)) => url matches Some(u) && u@ == client.base()
                    + "/session/"@ + id@ + "/context?limit="@ + decimal(
                    SESSION_CONTEXT_LIMIT as nat,
                ),
                _ => url is None,
            },
    {
        match (&self.session_client, &req.session_id) {
            (Some(client), Some(id)) => Some(
                client.context_url(id.as_str(), Some(SESSION_CONTEXT_LIMIT)),
            ),
            _ => None,
        }
    }

    /// The address at which to ask for the memories of the request's user
    /// that are relevant to the intent; none where the request names no
    /// user or no memory store is configured.
    pub fn memory_request(&self, req: &CompileRequest, max_candidates: usize) -> (url: Option<
        String,
    >)
        ensures
            match (self.memory_client, req.user_id) {
                (Some(client), Some(id)) => url matches Some(u) && u@ == client.base() + "/memory/"@
                    + id@ + "?query="@ + percent_encoded(text_bytes(req.intent@)) + "&limit="@
                    + decimal(max_candidates as nat),
                _ => url is None,
            },
    {
        match (&self.memory_client, &req.user_id) {
            (Some(client), Some(id)) => Some(
                client.memories_url(id.as_str(), req.intent.as_str(), Some(max_candidates)),
            ),
            _ => None,
        }
    }

    /// The session context of a request as working-set items. There is none
    /// where the request names no session, no session store is configured,
    /// or the store gave no answer.
    pub fn session_spans(&self, req: &CompileRequest, answer: &Option<SessionContextResponse>) -> (items:
        Vec<WSItem>)
        ensures
            all_session(items@),
            distinct_items(items@),
            match (self.session_client, req.session_id, *answer) {
                (Some(_), Some(id), Some(context)) => {
                    &&& items@.len() == context.context_spans@.len()
                    &&& forall|i: int|
                        0 <= i < items@.len() ==> is_session_item(
                            #[trigger] items@[i],
                            id@,
                            i as nat,
                            context.context_spans@[i],
                        )
                },
                _ => items@.len() == 0,
            },
    {
        match (&self.session_client, &req.session_id, answer) {
            (Some(_), Some(id), Some(context)) => session_items(id.as_str(), &context.context_spans),
            _ => Vec::new(),
        }
    }

    /// The memories of the request's user as candidates. There are none
    /// where the request names no user, no memory store is configured, or
    /// the store gave no answer.
    pub fn memory_candidates(
        &self,
        req: &CompileRequest,
        answer: Option<MemoriesResponse>,
        now: i64,
    ) -> (candidates: Vec<CandidateSpan>)
        ensures
            all_well_formed(candidates@),
            match (self.memory_client, req.user_id, answer) {
                (Some(_), Some(id), Some(found)) => {
                    &&& candidates@.len() == kept_memories(found.memories@).len()
                    &&& forall|j: int|
                        0 <= j < candidates@.len() ==> is_memory_candidate(
                            #[trigger] candidates@[j],
                            id@,
                            kept_memories(found.memories@)[j] as nat,
                            found.memories@[kept_memories(found.memories@)[j]],
                            now,
                        )
                },
                _ => candidates@.len() == 0,
            },
    {
        match (&self.memory_client, &req.user_id, answer) {
            (Some(_), Some(id), Some(found)) => memory_candidates(id.as_str(), found.memories, now),
            _ => Vec::new(),
        }
    }

    /// Compiles the working set of a request from what the collaborators
    /// gave, up to hydration.
    ///
    /// The request fails exactly if no generator returned a candidate.
    /// Otherwise the session spans are trimmed to their share of the
    /// budget, the candidates are fused, scored and selected within what is
    /// left, and the plan holds the session spans followed by the selected
    /// spans.
    pub fn compile_workingset(&self, req: &CompileRequest, gathered: Gathered) -> (r: Result<
        WorkingSetPlan,
        CompileError,
    >)
        requires
            gathered.admissible(),
        ensures
            match r {
                Ok(plan) => {
                    &&& !all_empty(successful(gathered.generated@))
                    &&& plan.session_part() == trimmed(
                        gathered.session_spans@,
                        session_cap(req.budget_tokens as nat),
                    )
                    &&& carry_all(plan.selected_part(), compiled_picks(*req, gathered))
                    &&& req.explain ==> (plan.rationale() matches Some(list) && explain_all(
                        list@,
                        compiled_picks(*req, gathered),
                        req.soft_prefs.diversity_lambda,
                    ))
                    &&& !req.explain ==> plan.rationale() is None
                    &&& plan.budget() == req.budget_tokens
                    &&& plan.generated() == total_candidates(
                        candidate_lists(gathered.generated@, gathered.memory_candidates),
                    )
                    &&& plan.after_dedup() == fusion(
                        candidate_lists(gathered.generated@, gathered.memory_candidates),
                    ).len()
                    &&& spent(item_ledger(plan.spans())) <= req.budget_tokens
                    &&& plan.retrieval() == retrieval_budget(
                        gathered.session_spans@,
                        req.budget_tokens as nat,
                    )
                    &&& plan.source_cap() == req.soft_prefs.max_single_source_ratio
                    &&& share_respected(
                        item_ledger(plan.selected_part()),
                        plan.retrieval(),
                        plan.source_cap(),
                    )
                    &&& all_session(gathered.session_spans@) && no_session_candidates(
                        candidate_lists(gathered.generated@, gathered.memory_candidates),
                    ) ==> session_first(plan.spans(), plan.session_part().len())
                    &&& distinct_items(gathered.session_spans@) && apart(
                        gathered.session_spans@,
                        candidate_lists(gathered.generated@, gathered.memory_candidates),
                    ) ==> distinct_items(plan.spans())
                },
                Err(CompileError::EmptyCandidates { intent }) => all_empty(
                    successful(gathered.generated@),
                ) && intent == req.intent,
            },
    {
        let Gathered { session_spans, generated, memory_candidates } = gathered;
        let ghost lists_spec = candidate_lists(generated@, memory_candidates);
        let mut lists = match collect_candidates(generated, &req.intent) {
            Ok(lists) => lists,
            Err(e) => {
                return Err(e);
            },
        };
        if memory_candidates.len() > 0 {
            lists.push(memory_candidates);
        }
        proof {
            assert(lists@ == lists_spec);
            assert(lists_well_formed(lists@)) by {
                assert forall|i: int| 0 <= i < lists@.len() implies all_well_formed(
                    (#[trigger] lists@[i])@,
                ) by {
                    if i < successful(generated@).len() {
                        assert(lists@[i] == successful(generated@)[i]);
                    }
                }
            }
            lemma_fusion(lists@);
            lemma_scored_well_formed(fusion(lists@), req.soft_prefs);
        }
        let candidates_generated = count_candidates(&lists);
        let (kept, retrieval) = reserve_session_budget(session_spans, req.budget_tokens);
        let mut fused = fuse_candidates(lists);
        let candidates_after_dedup = fused.len();
        score_candidates(&mut fused, &req.soft_prefs);
        let (mut selected, explanations) = select_with_mmr(
            fused,
            retrieval,
            &req.soft_prefs,
            req.explain,
        );
        let ghost picks = compiled_picks(*req, gathered);
        let ghost chosen = selected@;
        let session_count = kept.len();
        let mut spans = kept;
        spans.append(&mut selected);
        let rationale = if req.explain {
            Some(explanations)
        } else {
            None
        };
        proof {
            assert(spans@.take(session_count as int) =~= kept@);
            assert(spans@.skip(session_count as int) =~= chosen);
            lemma_item_ledger_concat(kept@, chosen);
            lemma_spent_concat(item_ledger(kept@), item_ledger(chosen));
            lemma_assembled(*req, gathered, spans@, session_count as nat);
        }
        Ok(
            WorkingSetPlan {
                spans,
                session_count,
                rationale,
                budget_tokens: req.budget_tokens,
                retrieval_budget: retrieval,
                max_single_source_ratio: req.soft_prefs.max_single_source_ratio,
                candidates_generated,
                candidates_after_dedup,
            },
        )
    }
}

} // verus!
