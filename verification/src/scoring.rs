//! Scoring of candidate spans: per-channel min-max normalization, the
//! weighted base score, and the similarity of two embeddings.

use vstd::prelude::*;
use crate::text::{contains_text, has_text};
use crate::types::{CandidateSpan, ScoreChannels, ScoreWeights, SoftPreferences, SCORE_SCALE, embedding_bounded};

verus! {

/// The smallest value of a list (`u32::MAX` for the empty list).
pub open spec fn lowest(values: Seq<u32>) -> u32
    decreases values.len(),
{
    if values.len() == 0 {
        u32::MAX
    } else if values.last() < lowest(values.drop_last()) {
        values.last()
    } else {
        lowest(values.drop_last())
    }
}

/// The largest value of a list (`0` for the empty list).
pub open spec fn highest(values: Seq<u32>) -> u32
    decreases values.len(),
{
    if values.len() == 0 {
        0
    } else if values.last() > highest(values.drop_last()) {
        values.last()
    } else {
        highest(values.drop_last())
    }
}

/// Every value of a list lies between `lowest` and `highest`.
pub proof fn lemma_lowest_highest_bound(values: Seq<u32>, i: int)
    requires
        0 <= i < values.len(),
    ensures
        lowest(values) <= values[i] <= highest(values),
    decreases values.len(),
{
    if i < values.len() - 1 {
        lemma_lowest_highest_bound(values.drop_last(), i);
    }
}

/// The smallest and the largest value of a list occur in it.
pub proof fn lemma_extremes_attained(values: Seq<u32>)
    requires
        values.len() > 0,
    ensures
        exists|i: int| 0 <= i < values.len() && #[trigger] values[i] == lowest(values),
        exists|i: int| 0 <= i < values.len() && #[trigger] values[i] == highest(values),
    decreases values.len(),
{
    let front = values.drop_last();
    let n = values.len() - 1;
    if front.len() > 0 {
        lemma_extremes_attained(front);
        let i = choose|i: int| 0 <= i < front.len() && #[trigger] front[i] == lowest(front);
        let j = choose|j: int| 0 <= j < front.len() && #[trigger] front[j] == highest(front);
        assert(values[i] == front[i] && values[j] == front[j]);
        assert(values[if values.last() < lowest(front) {
            n
        } else {
            i
        }] == lowest(values));
        assert(values[if values.last() > highest(front) {
            n
        } else {
            j
        }] == highest(values));
    } else {
        assert(lowest(front) == u32::MAX && highest(front) == 0);
        assert(values[n] == lowest(values));
        assert(values[n] == highest(values));
    }
}

/// The value occurs in the list.
pub open spec fn occurs(values: Seq<u32>, v: u32) -> bool {
    exists|j: int| 0 <= j < values.len() && #[trigger] values[j] == v
}

/// Every value of the one list occurs in the other.
pub open spec fn values_within(a: Seq<u32>, b: Seq<u32>) -> bool {
    forall|i: int| 0 <= i < a.len() ==> occurs(b, #[trigger] a[i])
}

/// Two lists that hold the same values have the same smallest and the same
/// largest value.
pub proof fn lemma_extremes_of_same_values(a: Seq<u32>, b: Seq<u32>)
    requires
        values_within(a, b),
        values_within(b, a),
    ensures
        lowest(a) == lowest(b),
        highest(a) == highest(b),
{
    if a.len() == 0 {
        if b.len() > 0 {
            assert(occurs(a, b[0]));
        }
    } else {
        assert(occurs(b, a[0]));
        lemma_extremes_attained(a);
        lemma_extremes_attained(b);
        let la = choose|i: int| 0 <= i < a.len() && #[trigger] a[i] == lowest(a);
        let ha = choose|i: int| 0 <= i < a.len() && #[trigger] a[i] == highest(a);
        let lb = choose|i: int| 0 <= i < b.len() && #[trigger] b[i] == lowest(b);
        let hb = choose|i: int| 0 <= i < b.len() && #[trigger] b[i] == highest(b);
        assert(occurs(b, a[la]) && occurs(b, a[ha]) && occurs(a, b[lb]) && occurs(a, b[hb]));
        let la2 = choose|j: int| 0 <= j < b.len() && #[trigger] b[j] == a[la];
        let ha2 = choose|j: int| 0 <= j < b.len() && #[trigger] b[j] == a[ha];
        let lb2 = choose|j: int| 0 <= j < a.len() && #[trigger] a[j] == b[lb];
        let hb2 = choose|j: int| 0 <= j < a.len() && #[trigger] a[j] == b[hb];
        lemma_lowest_highest_bound(b, la2);
        lemma_lowest_highest_bound(b, ha2);
        lemma_lowest_highest_bound(a, lb2);
        lemma_lowest_highest_bound(a, hb2);
    }
}

/// Min-max normalization of one value: with `min` and `max` no more than a
/// millionth apart the channel is constant, and the value maps to `1.0` if it
/// exceeds a millionth and to `0.0` otherwise; else it maps to
/// `(x - min) / (max - min)`, rounded down to a millionth.
pub open spec fn normalized(x: u32, min: u32, max: u32) -> int {
    if max <= min + 1 {
        if x > 1 {
            SCORE_SCALE as int
        } else {
            0
        }
    } else {
        ((x - min) * SCORE_SCALE) / (max - min)
    }
}

pub proof fn lemma_normalized_in_unit_range(x: u32, min: u32, max: u32)
    requires
        min <= x <= max,
    ensures
        0 <= normalized(x, min, max) <= SCORE_SCALE,
{
    if max > min + 1 {
        let d = max - min;
        let n = (x - min) * SCORE_SCALE;
        assert(0 <= n / d <= SCORE_SCALE) by (nonlinear_arith)
            requires
                d > 0,
                0 <= n <= d * SCORE_SCALE,
        ;
    }
}

/// Normalizes one value of a channel whose values span `[min, max]`.
pub fn normalize_channel(x: u32, min: u32, max: u32) -> (r: u32)
    requires
        min <= x <= max,
    ensures
        r == normalized(x, min, max),
        r <= SCORE_SCALE,
{
    proof {
        lemma_normalized_in_unit_range(x, min, max);
    }
    if max - min <= 1 {
        if x > 1 {
            SCORE_SCALE
        } else {
            0
        }
    } else {
        let n: u64 = (x - min) as u64 * 1_000_000;
        let q: u64 = n / ((max - min) as u64);
        q as u32
    }
}

/// The semantic scores of a list of candidates.
pub open spec fn semantic_values(candidates: Seq<CandidateSpan>) -> Seq<u32> {
    candidates.map_values(|c: CandidateSpan| c.scores.semantic)
}

/// The lexical scores of a list of candidates.
pub open spec fn lexical_values(candidates: Seq<CandidateSpan>) -> Seq<u32> {
    candidates.map_values(|c: CandidateSpan| c.scores.lexical)
}

/// The structural scores of a list of candidates.
pub open spec fn structural_values(candidates: Seq<CandidateSpan>) -> Seq<u32> {
    candidates.map_values(|c: CandidateSpan| c.scores.structural)
}

/// The graph scores of a list of candidates.
pub open spec fn graph_values(candidates: Seq<CandidateSpan>) -> Seq<u32> {
    candidates.map_values(|c: CandidateSpan| c.scores.graph)
}

/// The scores of one candidate after normalization over the list `all`:
/// each channel is normalized with the minimum and maximum that the channel
/// takes in `all`.
pub open spec fn normalized_scores(s: ScoreChannels, all: Seq<CandidateSpan>) -> ScoreChannels {
    ScoreChannels {
        semantic: normalized(
            s.semantic,
            lowest(semantic_values(all)),
            highest(semantic_values(all)),
        ) as u32,
        lexical: normalized(
            s.lexical,
            lowest(lexical_values(all)),
            highest(lexical_values(all)),
        ) as u32,
        structural: normalized(
            s.structural,
            lowest(structural_values(all)),
            highest(structural_values(all)),
        ) as u32,
        graph: normalized(s.graph, lowest(graph_values(all)), highest(graph_values(all))) as u32,
    }
}

/// A candidate with its scores replaced.
pub open spec fn with_scores(c: CandidateSpan, scores: ScoreChannels) -> CandidateSpan {
    CandidateSpan { scores, ..c }
}

/// All four channels are at most `1.0`.
pub open spec fn in_unit_range(s: ScoreChannels) -> bool {
    &&& s.semantic <= SCORE_SCALE
    &&& s.lexical <= SCORE_SCALE
    &&& s.structural <= SCORE_SCALE
    &&& s.graph <= SCORE_SCALE
}

proof fn lemma_take_next(values: Seq<u32>, i: int)
    requires
        0 <= i < values.len(),
    ensures
        values.take(i + 1).drop_last() == values.take(i),
        values.take(i + 1).last() == values[i],
{
    assert(values.take(i + 1).drop_last() =~= values.take(i));
}

/// Normalizes the scores of all candidates, channel by channel, over the
/// whole list. Nothing but the scores changes.
pub fn normalize_scores(candidates: &mut Vec<CandidateSpan>)
    ensures
        final(candidates)@.len() == old(candidates)@.len(),
        forall|i: int|
            0 <= i < old(candidates)@.len() ==> #[trigger] final(candidates)@[i] == with_scores(
                old(candidates)@[i],
                normalized_scores(old(candidates)@[i].scores, old(candidates)@),
            ),
        forall|i: int|
            0 <= i < old(candidates)@.len() ==> in_unit_range(
                (#[trigger] final(candidates)@[i]).scores,
            ),
{
    let n = candidates.len();
    if n == 0 {
        return ;
    }
    let ghost before = candidates@;
    let mut sem_min: u32 = u32::MAX;
    let mut sem_max: u32 = 0;
    let mut lex_min: u32 = u32::MAX;
    let mut lex_max: u32 = 0;
    let mut struct_min: u32 = u32::MAX;
    let mut struct_max: u32 = 0;
    let mut graph_min: u32 = u32::MAX;
    let mut graph_max: u32 = 0;
    let mut i: usize = 0;
    while i < n
        invariant
            i <= n,
            n == candidates@.len(),
            candidates@ == before,
            sem_min == lowest(semantic_values(before).take(i as int)),
            sem_max == highest(semantic_values(before).take(i as int)),
            lex_min == lowest(lexical_values(before).take(i as int)),
            lex_max == highest(lexical_values(before).take(i as int)),
            struct_min == lowest(structural_values(before).take(i as int)),
            struct_max == highest(structural_values(before).take(i as int)),
            graph_min == lowest(graph_values(before).take(i as int)),
            graph_max == highest(graph_values(before).take(i as int)),
        decreases n - i,
    {
        proof {
            lemma_take_next(semantic_values(before), i as int);
            lemma_take_next(lexical_values(before), i as int);
            lemma_take_next(structural_values(before), i as int);
            lemma_take_next(graph_values(before), i as int);
        }
        let s = candidates[i].scores;
        if s.semantic < sem_min {
            sem_min = s.semantic;
        }
        if s.semantic > sem_max {
            sem_max = s.semantic;
        }
        if s.lexical < lex_min {
            lex_min = s.lexical;
        }
        if s.lexical > lex_max {
            lex_max = s.lexical;
        }
        if s.structural < struct_min {
            struct_min = s.structural;
        }
        if s.structural > struct_max {
            struct_max = s.structural;
        }
        if s.graph < graph_min {
            graph_min = s.graph;
        }
        if s.graph > graph_max {
            graph_max = s.graph;
        }
        i += 1;
    }
    proof {
        assert(semantic_values(before).take(n as int) =~= semantic_values(before));
        assert(lexical_values(before).take(n as int) =~= lexical_values(before));
        assert(structural_values(before).take(n as int) =~= structural_values(before));
        assert(graph_values(before).take(n as int) =~= graph_values(before));
    }
    let mut k: usize = 0;
    while k < n
        invariant
            k <= n,
            n == candidates@.len(),
            n == before.len(),
            sem_min == lowest(semantic_values(before)),
            sem_max == highest(semantic_values(before)),
            lex_min == lowest(lexical_values(before)),
            lex_max == highest(lexical_values(before)),
            struct_min == lowest(structural_values(before)),
            struct_max == highest(structural_values(before)),
            graph_min == lowest(graph_values(before)),
            graph_max == highest(graph_values(before)),
            forall|j: int|
                0 <= j < k ==> #[trigger] candidates@[j] == with_scores(
                    before[j],
                    normalized_scores(before[j].scores, before),
                ),
            forall|j: int| 0 <= j < k ==> in_unit_range((#[trigger] candidates@[j]).scores),
            forall|j: int| k <= j < n ==> #[trigger] candidates@[j] == before[j],
        decreases n - k,
    {
        proof {
            lemma_lowest_highest_bound(semantic_values(before), k as int);
            lemma_lowest_highest_bound(lexical_values(before), k as int);
            lemma_lowest_highest_bound(structural_values(before), k as int);
            lemma_lowest_highest_bound(graph_values(before), k as int);
        }
        let s = candidates[k].scores;
        let scores = ScoreChannels {
            semantic: normalize_channel(s.semantic, sem_min, sem_max),
            lexical: normalize_channel(s.lexical, lex_min, lex_max),
            structural: normalize_channel(s.structural, struct_min, struct_max),
            graph: normalize_channel(s.graph, graph_min, graph_max),
        };
        candidates[k].scores = scores;
        k += 1;
    }
}

/// The stage of the candidate is one of the preferred stages.
pub open spec fn stage_preferred(stage: Option<String>, prefer_stages: Seq<String>) -> bool {
    stage matches Some(st) && has_text(prefer_stages, st@)
}

/// The weighted sum of the four channels and of the recency score, in
/// units of a millionth of a millionth.
pub open spec fn weighted_sum(scores: ScoreChannels, recency: u32, weights: ScoreWeights) -> int {
    weights.semantic * scores.semantic + weights.lexical * scores.lexical + weights.structural
        * scores.structural + weights.graph * scores.graph + weights.recency * recency
}

/// The base score: the weighted sum, rounded down to a millionth, plus the
/// stage boost where the stage is preferred.
pub open spec fn base_score(
    scores: ScoreChannels,
    recency: u32,
    preferred: bool,
    weights: ScoreWeights,
) -> int {
    weighted_sum(scores, recency, weights) / (SCORE_SCALE as int) + if preferred {
        weights.stage_boost as int
    } else {
        0
    }
}

/// The base score of a candidate under given preferences.
pub open spec fn candidate_base_score(cand: CandidateSpan, prefs: SoftPreferences) -> int {
    base_score(
        cand.scores,
        cand.metadata.recency_score,
        stage_preferred(cand.metadata.stage, prefs.prefer_stages@),
        prefs.score_weights,
    )
}

proof fn lemma_product_bound(a: u32, b: u32)
    ensures
        0 <= a * b <= 0xffff_fffe_0000_0001,
{
    assert(0 <= a * b <= 0xffff_ffff * 0xffff_ffff) by (nonlinear_arith)
        requires
            0 <= a <= 0xffff_ffff,
            0 <= b <= 0xffff_ffff,
    ;
}

/// One weight does not exceed the other in any component.
pub open spec fn weights_le(low: ScoreWeights, high: ScoreWeights) -> bool {
    &&& low.semantic <= high.semantic
    &&& low.lexical <= high.lexical
    &&& low.structural <= high.structural
    &&& low.graph <= high.graph
    &&& low.recency <= high.recency
    &&& low.stage_boost <= high.stage_boost
}

/// Scoring is monotone in the weights: raising any weight, with the
/// candidate unchanged, never lowers the base score.
pub proof fn lemma_base_score_monotone(
    scores: ScoreChannels,
    recency: u32,
    preferred: bool,
    low: ScoreWeights,
    high: ScoreWeights,
)
    requires
        weights_le(low, high),
    ensures
        base_score(scores, recency, preferred, low) <= base_score(scores, recency, preferred, high),
{
    let a = weighted_sum(scores, recency, low);
    let b = weighted_sum(scores, recency, high);
    assert(a <= b) by (nonlinear_arith)
        requires
            a == low.semantic * scores.semantic + low.lexical * scores.lexical + low.structural
                * scores.structural + low.graph * scores.graph + low.recency * recency,
            b == high.semantic * scores.semantic + high.lexical * scores.lexical + high.structural
                * scores.structural + high.graph * scores.graph + high.recency * recency,
            weights_le(low, high),
    ;
    assert(a / (SCORE_SCALE as int) <= b / (SCORE_SCALE as int)) by (nonlinear_arith)
        requires
            a <= b,
    ;
}

/// Decides whether `stage` is one of `prefer_stages`.
pub fn is_stage_preferred(stage: &Option<String>, prefer_stages: &Vec<String>) -> (r: bool)
    ensures
        r == stage_preferred(*stage, prefer_stages@),
{
    match stage {
        Some(st) => contains_text(prefer_stages, st),
        None => false,
    }
}

/// Computes the base score of a candidate from its (normalized) channel
/// scores, its recency score and its stage.
pub fn compute_base_score(cand: &CandidateSpan, prefs: &SoftPreferences) -> (score: u64)
    ensures
        score == candidate_base_score(*cand, *prefs),
{
    let w = prefs.score_weights;
    let s = cand.scores;
    let r = cand.metadata.recency_score;
    proof {
        lemma_product_bound(w.semantic, s.semantic);
        lemma_product_bound(w.lexical, s.lexical);
        lemma_product_bound(w.structural, s.structural);
        lemma_product_bound(w.graph, s.graph);
        lemma_product_bound(w.recency, r);
    }
    let sum: u128 = (w.semantic as u128) * (s.semantic as u128) + (w.lexical as u128) * (
    s.lexical as u128) + (w.structural as u128) * (s.structural as u128) + (w.graph as u128) * (
    s.graph as u128) + (w.recency as u128) * (r as u128);
    let mut score: u64 = (sum / 1_000_000) as u64;
    if is_stage_preferred(&cand.metadata.stage, &prefs.prefer_stages) {
        score = score + w.stage_boost as u64;
    }
    score
}

/// The sum of the products of the first `n` components of two vectors.
pub open spec fn dot_prefix(a: Seq<i32>, b: Seq<i32>, n: nat) -> int
    decreases n,
{
    if n == 0 {
        0
    } else {
        dot_prefix(a, b, (n - 1) as nat) + a[n - 1] * b[n - 1]
    }
}

/// The dot product of two vectors over the components that both have.
pub open spec fn dot_product(a: Seq<i32>, b: Seq<i32>) -> int {
    dot_prefix(a, b, if a.len() <= b.len() { a.len() } else { b.len() })
}

/// Brings a product of two fixed-point numbers back to millionths, rounding
/// toward zero.
pub open spec fn rescaled(product: int) -> int {
    if product >= 0 {
        product / (SCORE_SCALE as int)
    } else {
        -((-product) / (SCORE_SCALE as int))
    }
}

/// The cosine similarity of two unit-length embeddings, in millionths: their
/// dot product.
pub open spec fn similarity(a: Seq<i32>, b: Seq<i32>) -> int {
    rescaled(dot_product(a, b))
}

/// The dot product of bounded vectors grows at most linearly with their
/// length.
pub proof fn lemma_dot_prefix_bound(a: Seq<i32>, b: Seq<i32>, n: nat)
    requires
        embedding_bounded(a),
        embedding_bounded(b),
        n <= a.len(),
        n <= b.len(),
    ensures
        -(n * 1_000_000_000_000) <= dot_prefix(a, b, n) <= n * 1_000_000_000_000,
    decreases n,
{
    if n > 0 {
        lemma_dot_prefix_bound(a, b, (n - 1) as nat);
        let x = a[n - 1] as int;
        let y = b[n - 1] as int;
        assert(-1_000_000_000_000 <= x * y <= 1_000_000_000_000) by (nonlinear_arith)
            requires
                -1_000_000 <= x <= 1_000_000,
                -1_000_000 <= y <= 1_000_000,
        ;
    }
}

/// The similarity of bounded vectors is bounded by their length.
pub proof fn lemma_similarity_bound(a: Seq<i32>, b: Seq<i32>)
    requires
        embedding_bounded(a),
        embedding_bounded(b),
    ensures
        -(a.len() * 1_000_000) <= similarity(a, b) <= a.len() * 1_000_000,
{
    let n: nat = if a.len() <= b.len() { a.len() } else { b.len() };
    lemma_dot_prefix_bound(a, b, n);
    let d = dot_product(a, b);
    let len = a.len() as int;
    if d >= 0 {
        assert(d / 1_000_000 <= len * 1_000_000) by (nonlinear_arith)
            requires
                0 <= d <= n * 1_000_000_000_000,
                n <= len,
        ;
    } else {
        assert((-d) / 1_000_000 <= len * 1_000_000) by (nonlinear_arith)
            requires
                0 <= -d <= n * 1_000_000_000_000,
                n <= len,
        ;
    }
}

/// Cosine similarity of two embeddings, in millionths. The embeddings are
/// taken to be of unit length, so this is their dot product.
pub fn cosine_similarity(a: &[i32], b: &[i32]) -> (sim: i128)
    requires
        embedding_bounded(a@),
        embedding_bounded(b@),
    ensures
        sim == similarity(a@, b@),
{
    let n: usize = if a.len() <= b.len() { a.len() } else { b.len() };
    let mut acc: i128 = 0;
    let mut i: usize = 0;
    while i < n
        invariant
            i <= n,
            n <= a@.len(),
            n <= b@.len(),
            embedding_bounded(a@),
            embedding_bounded(b@),
            acc == dot_prefix(a@, b@, i as nat),
        decreases n - i,
    {
        proof {
            lemma_dot_prefix_bound(a@, b@, i as nat);
            lemma_dot_prefix_bound(a@, b@, (i + 1) as nat);
        }
        acc = acc + (a[i] as i128) * (b[i] as i128);
        i += 1;
    }
    proof {
        lemma_dot_prefix_bound(a@, b@, n as nat);
    }
    if acc >= 0 {
        acc / 1_000_000
    } else {
        -((-acc) / 1_000_000)
    }
}

} // verus!
