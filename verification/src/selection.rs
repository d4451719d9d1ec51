//! Selection of spans by Maximal Marginal Relevance under a token budget and
//! a cap on the share of each source.

use vstd::prelude::*;
use vstd::string::*;
use crate::ledger::{
    candidate_ledger, item_ledger, lemma_spent_on_le_spent, spent, spent_on, tokens_from, Ledger,
};
use crate::ranking::{
    lemma_ranked_distinct, lemma_ranked_members, lemma_ranked_well_formed,
    lemma_ranking_order_free, member, rank_candidates, ranked, within,
};
use crate::scoring::{cosine_similarity, lemma_similarity_bound, rescaled, similarity};
use crate::text::{append_two_decimals, texts, two_decimals};
use crate::types::{
    all_well_formed, distinct_items, distinct_spans, embedding_bounded, CandidateSpan,
    SoftPreferences, SourceType, SpanExplanation, WSItem, SCORE_SCALE,
};

verus! {

/// Two MMR scores less than `0.01` apart count as tied. The band is held in
/// the unit of a product of two fixed-point numbers.
pub const MMR_TIE_BAND: i128 = 10_000_000_000;

/// All embeddings of a list have components within `[-1.0, 1.0]`.
pub open spec fn all_bounded(embeddings: Seq<Vec<i32>>) -> bool {
    forall|i: int| 0 <= i < embeddings.len() ==> embedding_bounded((#[trigger] embeddings[i])@)
}

/// The largest similarity of `e` to one of the selected embeddings, as it
/// is: it is negative where `e` points away from all of them. Zero where
/// none is selected.
pub open spec fn nearest_similarity(e: Seq<i32>, selected: Seq<Vec<i32>>) -> int
    decreases selected.len(),
{
    if selected.len() == 0 {
        0
    } else if selected.len() == 1 {
        similarity(e, selected[0]@)
    } else {
        let rest = nearest_similarity(e, selected.drop_last());
        let s = similarity(e, selected.last()@);
        if s > rest {
            s
        } else {
            rest
        }
    }
}

/// The similarity of a candidate to the selected spans that have an
/// embedding; zero for a candidate without embedding, and where no selected
/// span has one.
pub open spec fn max_similarity(c: CandidateSpan, selected: Seq<Vec<i32>>) -> int {
    match c.embedding {
        Some(e) => nearest_similarity(e@, selected),
        None => 0,
    }
}

/// `(1 - lambda) * max_sim`, as a product of two fixed-point numbers.
pub open spec fn penalty_product(c: CandidateSpan, selected: Seq<Vec<i32>>, lambda: u32) -> int {
    (SCORE_SCALE - lambda) * max_similarity(c, selected)
}

/// `lambda * base_score - (1 - lambda) * max_sim`, as a product of two
/// fixed-point numbers.
pub open spec fn mmr_product(c: CandidateSpan, selected: Seq<Vec<i32>>, lambda: u32) -> int {
    lambda * c.base_score - penalty_product(c, selected, lambda)
}

/// The diversity penalty of a candidate, in millionths.
pub open spec fn diversity_penalty(c: CandidateSpan, selected: Seq<Vec<i32>>, lambda: u32) -> int {
    rescaled(penalty_product(c, selected, lambda))
}

/// The MMR score of a candidate, in millionths.
pub open spec fn mmr_score(c: CandidateSpan, selected: Seq<Vec<i32>>, lambda: u32) -> int {
    rescaled(mmr_product(c, selected, lambda))
}

/// Candidate `c` displaces the best candidate so far, `b`: where their MMR
/// scores are tied, if it costs fewer tokens; else, if its MMR score is
/// higher.
pub open spec fn displaces(
    c: CandidateSpan,
    b: CandidateSpan,
    selected: Seq<Vec<i32>>,
    lambda: u32,
) -> bool {
    let d = mmr_product(c, selected, lambda) - mmr_product(b, selected, lambda);
    if -MMR_TIE_BAND < d < MMR_TIE_BAND {
        c.span_ref.token_cost < b.span_ref.token_cost
    } else {
        d > 0
    }
}

/// The index of the best candidate among the first `n` of the pool: each
/// candidate in turn is held against the best one before it.
pub open spec fn best_among(
    pool: Seq<CandidateSpan>,
    selected: Seq<Vec<i32>>,
    lambda: u32,
    n: nat,
) -> int
    decreases n,
{
    if n <= 1 {
        0
    } else {
        let b = best_among(pool, selected, lambda, (n - 1) as nat);
        if displaces(pool[n - 1], pool[b], selected, lambda) {
            n - 1
        } else {
            b
        }
    }
}

/// The index of the best candidate of the pool by MMR.
pub open spec fn best_index(pool: Seq<CandidateSpan>, selected: Seq<Vec<i32>>, lambda: u32) -> int {
    best_among(pool, selected, lambda, pool.len())
}

pub proof fn lemma_best_among_in_range(
    pool: Seq<CandidateSpan>,
    selected: Seq<Vec<i32>>,
    lambda: u32,
    n: nat,
)
    requires
        0 < n <= pool.len(),
    ensures
        0 <= best_among(pool, selected, lambda, n) < n,
    decreases n,
{
    if n > 1 {
        lemma_best_among_in_range(pool, selected, lambda, (n - 1) as nat);
    }
}

/// The similarity to the selected spans is bounded by the length of the
/// embedding.
pub proof fn lemma_nearest_similarity_bound(e: Seq<i32>, selected: Seq<Vec<i32>>)
    requires
        embedding_bounded(e),
        all_bounded(selected),
    ensures
        -(e.len() * 1_000_000) <= nearest_similarity(e, selected) <= e.len() * 1_000_000,
    decreases selected.len(),
{
    if selected.len() == 1 {
        lemma_similarity_bound(e, selected[0]@);
    } else if selected.len() > 1 {
        assert(all_bounded(selected.drop_last())) by {
            assert forall|i: int| 0 <= i < selected.drop_last().len() implies embedding_bounded(
                (#[trigger] selected.drop_last()[i])@,
            ) by {
                assert(selected.drop_last()[i] == selected[i]);
            }
        }
        lemma_nearest_similarity_bound(e, selected.drop_last());
        lemma_similarity_bound(e, selected.last()@);
    }
}

/// Bounds of the MMR quantities of a well-formed candidate, far inside the
/// range of `i128`.
pub proof fn lemma_mmr_bounds(c: CandidateSpan, selected: Seq<Vec<i32>>, lambda: u32)
    requires
        c.well_formed(),
        all_bounded(selected),
    ensures
        -(0xffff_ffff_ffff_ffff * 1_000_000) <= max_similarity(c, selected)
            <= 0xffff_ffff_ffff_ffff * 1_000_000,
        -100_000_000_000_000_000_000_000_000_000_000_000 <= penalty_product(c, selected, lambda) <= 100_000_000_000_000_000_000_000_000_000_000_000,
        -2 * 100_000_000_000_000_000_000_000_000_000_000_000 <= mmr_product(c, selected, lambda) <= 2 * 100_000_000_000_000_000_000_000_000_000_000_000,
{
    let m = max_similarity(c, selected);
    match c.embedding {
        Some(e) => {
            lemma_nearest_similarity_bound(e@, selected);
            assert(e@.len() == e.len());
            assert(e@.len() * 1_000_000 <= 0xffff_ffff_ffff_ffff * 1_000_000) by (nonlinear_arith)
                requires
                    e@.len() <= 0xffff_ffff_ffff_ffff,
            ;
        },
        None => {},
    }
    let f = SCORE_SCALE - lambda;
    assert(-100_000_000_000_000_000_000_000_000_000_000_000 <= f * m <= 100_000_000_000_000_000_000_000_000_000_000_000) by (nonlinear_arith)
        requires
            -(0xffff_ffff_ffff_ffff * 1_000_000) <= m <= 0xffff_ffff_ffff_ffff * 1_000_000,
            -0x1_0000_0000 <= f <= 1_000_000,
    ;
    let l = lambda as int;
    let b = c.base_score as int;
    assert(0 <= l * b <= 100_000_000_000_000_000_000_000_000_000_000_000) by (nonlinear_arith)
        requires
            0 <= l <= 0xffff_ffff,
            0 <= b <= 0xffff_ffff_ffff_ffff,
    ;
}

/// Similarity of `e` to the nearest selected embedding.
pub fn nearest_selected(e: &Vec<i32>, selected: &Vec<Vec<i32>>) -> (m: i128)
    requires
        embedding_bounded(e@),
        all_bounded(selected@),
    ensures
        m == nearest_similarity(e@, selected@),
{
    if selected.len() == 0 {
        return 0;
    }
    let mut m: i128 = cosine_similarity(e.as_slice(), selected[0].as_slice());
    let mut j: usize = 1;
    assert(selected@.take(1)[0] == selected@[0]);
    while j < selected.len()
        invariant
            1 <= j <= selected@.len(),
            embedding_bounded(e@),
            all_bounded(selected@),
            m == nearest_similarity(e@, selected@.take(j as int)),
        decreases selected@.len() - j,
    {
        proof {
            assert(selected@.take(j + 1).drop_last() =~= selected@.take(j as int));
            assert(selected@.take(j + 1).last() == selected@[j as int]);
        }
        let s = cosine_similarity(e.as_slice(), selected[j].as_slice());
        if s > m {
            m = s;
        }
        j += 1;
    }
    assert(selected@.take(selected@.len() as int) =~= selected@);
    m
}

/// The MMR quantities of one candidate: `(mmr_product, penalty_product)`.
pub fn mmr_of(c: &CandidateSpan, selected: &Vec<Vec<i32>>, lambda: u32) -> (r: (i128, i128))
    requires
        c.well_formed(),
        all_bounded(selected@),
    ensures
        r.0 == mmr_product(*c, selected@, lambda),
        r.1 == penalty_product(*c, selected@, lambda),
{
    let max_sim: i128 = match &c.embedding {
        Some(e) => nearest_selected(e, selected),
        None => 0,
    };
    proof {
        lemma_mmr_bounds(*c, selected@, lambda);
    }
    let factor: i128 = 1_000_000 - (lambda as i128);
    let penalty: i128 = factor * max_sim;
    let gain: i128 = (lambda as i128) * (c.base_score as i128);
    (gain - penalty, penalty)
}

/// Brings a product of two fixed-point numbers back to millionths.
pub fn rescale(product: i128) -> (r: i128)
    requires
        product > i128::MIN,
    ensures
        r == rescaled(product as int),
{
    if product >= 0 {
        product / 1_000_000
    } else {
        -((-product) / 1_000_000)
    }
}

/// Finds the candidate with the highest MMR score (see `best_index` for the
/// treatment of ties). Returns its index, its MMR score and its diversity
/// penalty, both in millionths.
pub fn find_best_mmr(
    candidates: &Vec<CandidateSpan>,
    selected_embeddings: &Vec<Vec<i32>>,
    lambda: u32,
) -> (best: (usize, i128, i128))
    requires
        candidates@.len() > 0,
        all_well_formed(candidates@),
        all_bounded(selected_embeddings@),
    ensures
        best.0 == best_index(candidates@, selected_embeddings@, lambda),
        best.0 < candidates@.len(),
        best.1 == mmr_score(candidates@[best.0 as int], selected_embeddings@, lambda),
        best.2 == diversity_penalty(candidates@[best.0 as int], selected_embeddings@, lambda),
{
    let first = mmr_of(&candidates[0], selected_embeddings, lambda);
    let mut best_idx: usize = 0;
    let mut best_mmr: i128 = first.0;
    let mut best_penalty: i128 = first.1;
    let mut idx: usize = 1;
    while idx < candidates.len()
        invariant
            1 <= idx <= candidates@.len(),
            all_well_formed(candidates@),
            all_bounded(selected_embeddings@),
            best_idx == best_among(candidates@, selected_embeddings@, lambda, idx as nat),
            best_idx < idx,
            best_mmr == mmr_product(candidates@[best_idx as int], selected_embeddings@, lambda),
            best_penalty == penalty_product(
                candidates@[best_idx as int],
                selected_embeddings@,
                lambda,
            ),
        decreases candidates@.len() - idx,
    {
        let cand = &candidates[idx];
        let m = mmr_of(cand, selected_embeddings, lambda);
        proof {
            lemma_mmr_bounds(*cand, selected_embeddings@, lambda);
            lemma_mmr_bounds(candidates@[best_idx as int], selected_embeddings@, lambda);
        }
        let d: i128 = m.0 - best_mmr;
        let is_better = if -MMR_TIE_BAND < d && d < MMR_TIE_BAND {
            cand.span_ref.token_cost < candidates[best_idx].span_ref.token_cost
        } else {
            d > 0
        };
        if is_better {
            best_idx = idx;
            best_mmr = m.0;
            best_penalty = m.1;
        }
        idx += 1;
    }
    proof {
        lemma_mmr_bounds(candidates@[best_idx as int], selected_embeddings@, lambda);
    }
    (best_idx, rescale(best_mmr), rescale(best_penalty))
}

/// Among the first `n` candidates of the pool, the index of the one with
/// the highest base score that costs at most `max_tokens`; of several such,
/// the last.
pub open spec fn fitting_among(pool: Seq<CandidateSpan>, max_tokens: nat, n: nat) -> Option<int>
    decreases n,
{
    if n == 0 {
        None
    } else {
        let before = fitting_among(pool, max_tokens, (n - 1) as nat);
        let c = pool[n - 1];
        if c.span_ref.token_cost <= max_tokens && (before matches Some(b) ==> c.base_score
            >= pool[b].base_score) {
            Some(n - 1)
        } else {
            before
        }
    }
}

/// The smaller-fit fallback: the best-scoring candidate of the pool that
/// costs at most `max_tokens`.
pub open spec fn smaller_fit(pool: Seq<CandidateSpan>, max_tokens: nat) -> Option<int> {
    fitting_among(pool, max_tokens, pool.len())
}

/// What `fitting_among` finds is a candidate that fits; it finds one
/// whenever one fits, and none of those that fit has a higher base score.
pub proof fn lemma_fitting_among(pool: Seq<CandidateSpan>, max_tokens: nat, n: nat)
    requires
        n <= pool.len(),
    ensures
        match fitting_among(pool, max_tokens, n) {
            Some(i) => 0 <= i < n && pool[i].span_ref.token_cost <= max_tokens && forall|j: int|
                0 <= j < n && (#[trigger] pool[j]).span_ref.token_cost <= max_tokens
                    ==> pool[j].base_score <= pool[i].base_score && (j > i ==> pool[j].base_score
                    < pool[i].base_score),
            None => forall|j: int| 0 <= j < n ==> (#[trigger] pool[j]).span_ref.token_cost > max_tokens,
        },
    decreases n,
{
    if n > 0 {
        lemma_fitting_among(pool, max_tokens, (n - 1) as nat);
    }
}

/// Finds the candidate with the highest base score among those that cost at
/// most `max_tokens`.
pub fn find_smaller_span(candidates: &Vec<CandidateSpan>, max_tokens: usize) -> (found: Option<
    usize,
>)
    ensures
        match found {
            Some(i) => smaller_fit(candidates@, max_tokens as nat) == Some(i as int) && i
                < candidates@.len(),
            None => smaller_fit(candidates@, max_tokens as nat) is None,
        },
{
    let mut found: Option<usize> = None;
    let mut idx: usize = 0;
    while idx < candidates.len()
        invariant
            idx <= candidates@.len(),
            match found {
                Some(i) => fitting_among(candidates@, max_tokens as nat, idx as nat) == Some(
                    i as int,
                ) && i < idx,
                None => fitting_among(candidates@, max_tokens as nat, idx as nat) is None,
            },
        decreases candidates@.len() - idx,
    {
        let c = &candidates[idx];
        if c.span_ref.token_cost <= max_tokens {
            let replace = match found {
                Some(b) => c.base_score >= candidates[b].base_score,
                None => true,
            };
            if replace {
                found = Some(idx);
            }
        }
        idx += 1;
    }
    found
}

/// The sources of the selected spans followed by those of the pool.
pub open spec fn sources_in_play(ledger: Ledger, pool: Seq<CandidateSpan>) -> Seq<Seq<char>> {
    ledger.map_values(|e: (Seq<char>, nat)| e.0) + pool.map_values(
        |c: CandidateSpan| c.metadata.filepath@,
    )
}

/// More than one source occurs in a list.
pub open spec fn several(sources: Seq<Seq<char>>) -> bool {
    exists|i: int, j: int| 0 <= i < j < sources.len() && sources[i] != sources[j]
}

/// The source-diversity guard is active: more than one source is in play,
/// and at least three spans are selected or at least a fifth of the budget
/// is used.
pub open spec fn guard_active(ledger: Ledger, pool: Seq<CandidateSpan>, budget: nat) -> bool {
    several(sources_in_play(ledger, pool)) && (ledger.len() >= 3 || 5 * spent(ledger) >= budget)
}

/// Adding `cost` tokens of `source` would give that source more than
/// `ratio` of all selected tokens.
pub open spec fn over_share(ledger: Ledger, source: Seq<char>, cost: nat, ratio: u32) -> bool {
    (spent_on(ledger, source) + cost) * SCORE_SCALE > ratio * (spent(ledger) + cost)
}

/// All sources of a list equal its first.
spec fn uniform(sources: Seq<Seq<char>>) -> bool {
    forall|i: int| 0 <= i < sources.len() ==> #[trigger] sources[i] == sources[0]
}

proof fn lemma_several_iff_not_uniform(sources: Seq<Seq<char>>)
    ensures
        several(sources) <==> !uniform(sources),
{
    if !uniform(sources) {
        let i = choose|i: int| 0 <= i < sources.len() && #[trigger] sources[i] != sources[0];
        assert(0 < i && sources[0] != sources[i]);
    }
}

/// Decides whether the selected spans and the pool hold more than one
/// source between them.
pub fn has_several_sources(items: &Vec<WSItem>, pool: &Vec<CandidateSpan>) -> (r: bool)
    ensures
        r == several(sources_in_play(item_ledger(items@), pool@)),
{
    let ghost all = sources_in_play(item_ledger(items@), pool@);
    proof {
        lemma_several_iff_not_uniform(all);
    }
    if items.len() == 0 && pool.len() == 0 {
        return false;
    }
    let first: &String = if items.len() > 0 {
        &items[0].metadata.filepath
    } else {
        &pool[0].metadata.filepath
    };
    assert(first@ == all[0]);
    let mut i: usize = 0;
    while i < items.len()
        invariant
            i <= items@.len(),
            all == sources_in_play(item_ledger(items@), pool@),
            all.len() == items@.len() + pool@.len(),
            all.len() > 0,
            first@ == all[0],
            forall|j: int| 0 <= j < i ==> #[trigger] all[j] == all[0],
        decreases items@.len() - i,
    {
        if items[i].metadata.filepath != *first {
            assert(all[i as int] != all[0]);
            return true;
        }
        i += 1;
    }
    let mut k: usize = 0;
    while k < pool.len()
        invariant
            k <= pool@.len(),
            all == sources_in_play(item_ledger(items@), pool@),
            all.len() == items@.len() + pool@.len(),
            all.len() > 0,
            first@ == all[0],
            forall|j: int| 0 <= j < items@.len() + k ==> #[trigger] all[j] == all[0],
        decreases pool@.len() - k,
    {
        if pool[k].metadata.filepath != *first {
            assert(all[items@.len() + k] != all[0]);
            return true;
        }
        k += 1;
    }
    false
}

/// A channel label is given where the normalized score exceeds `0.5`.
pub const LABEL_THRESHOLD: u32 = 500_000;

/// The reasons given for a selected span: a label for each of the four
/// channels whose score exceeds `0.5`, the section and the stage where the
/// span has them, and the final MMR score.
pub open spec fn reasons(c: CandidateSpan, final_score: int) -> Seq<Seq<char>> {
    (if c.scores.semantic > LABEL_THRESHOLD {
        seq!["semantic match: "@ + two_decimals(c.scores.semantic as int)]
    } else {
        Seq::<Seq<char>>::empty()
    }) + (if c.scores.lexical > LABEL_THRESHOLD {
        seq!["keyword match: "@ + two_decimals(c.scores.lexical as int)]
    } else {
        Seq::<Seq<char>>::empty()
    }) + (if c.scores.structural > LABEL_THRESHOLD {
        seq!["structural relevance: "@ + two_decimals(c.scores.structural as int)]
    } else {
        Seq::<Seq<char>>::empty()
    }) + (if c.scores.graph > LABEL_THRESHOLD {
        seq!["graph relevance: "@ + two_decimals(c.scores.graph as int)]
    } else {
        Seq::<Seq<char>>::empty()
    }) + (match c.metadata.section_title {
        Some(title) => seq!["section: "@ + title@],
        None => Seq::<Seq<char>>::empty(),
    }) + (match c.metadata.stage {
        Some(stage) => seq!["stage: "@ + stage@],
        None => Seq::<Seq<char>>::empty(),
    }) + seq!["final MMR score: "@ + two_decimals(final_score)]
}

fn labelled_score(label: &str, value: i128) -> (line: String)
    ensures
        line@ == label@ + two_decimals(value as int),
{
    let mut line = label.to_owned();
    append_two_decimals(&mut line, value);
    line
}

fn labelled_text(label: &str, value: &String) -> (line: String)
    ensures
        line@ == label@ + value@,
{
    let mut line = label.to_owned();
    line.append(value.as_str());
    line
}

/// Writes the reasons for which a span was selected.
pub fn explain_candidate(cand: &CandidateSpan, final_score: i128) -> (lines: Vec<String>)
    ensures
        texts(lines@) == reasons(*cand, final_score as int),
{
    let mut lines: Vec<String> = Vec::new();
    if cand.scores.semantic > LABEL_THRESHOLD {
        lines.push(labelled_score("semantic match: ", cand.scores.semantic as i128));
    }
    if cand.scores.lexical > LABEL_THRESHOLD {
        lines.push(labelled_score("keyword match: ", cand.scores.lexical as i128));
    }
    if cand.scores.structural > LABEL_THRESHOLD {
        lines.push(labelled_score("structural relevance: ", cand.scores.structural as i128));
    }
    if cand.scores.graph > LABEL_THRESHOLD {
        lines.push(labelled_score("graph relevance: ", cand.scores.graph as i128));
    }
    match &cand.metadata.section_title {
        Some(title) => {
            lines.push(labelled_text("section: ", title));
        },
        None => {},
    }
    match &cand.metadata.stage {
        Some(stage) => {
            lines.push(labelled_text("stage: ", stage));
        },
        None => {},
    }
    lines.push(labelled_score("final MMR score: ", final_score));
    assert(texts(lines@) =~= reasons(*cand, final_score as int));
    lines
}

/// The embeddings of the selected spans that have one, in the order of
/// selection.
pub open spec fn embeddings_of(picks: Seq<CandidateSpan>) -> Seq<Vec<i32>>
    decreases picks.len(),
{
    if picks.len() == 0 {
        Seq::empty()
    } else {
        let rest = embeddings_of(picks.drop_last());
        match picks.last().embedding {
            Some(e) => rest.push(e),
            None => rest,
        }
    }
}

/// The candidate that a round of the selection considers: the best by MMR
/// or, where that one costs more than the budget has left, the smaller-fit
/// fallback. `None` where nothing fits any more.
pub open spec fn contender(
    pool: Seq<CandidateSpan>,
    picks: Seq<CandidateSpan>,
    budget: nat,
    lambda: u32,
) -> Option<int> {
    let room = budget - spent(candidate_ledger(picks));
    let best = best_index(pool, embeddings_of(picks), lambda);
    if pool[best].span_ref.token_cost > room {
        smaller_fit(pool, room as nat)
    } else {
        Some(best)
    }
}

/// The source-diversity guard turns the candidate at `idx` down.
pub open spec fn turned_down(
    pool: Seq<CandidateSpan>,
    picks: Seq<CandidateSpan>,
    idx: int,
    budget: nat,
    ratio: u32,
) -> bool {
    guard_active(candidate_ledger(picks), pool, budget) && over_share(
        candidate_ledger(picks),
        pool[idx].metadata.filepath@,
        pool[idx].span_ref.token_cost as nat,
        ratio,
    )
}

pub proof fn lemma_contender_in_range(
    pool: Seq<CandidateSpan>,
    picks: Seq<CandidateSpan>,
    budget: nat,
    lambda: u32,
)
    requires
        pool.len() > 0,
        spent(candidate_ledger(picks)) < budget,
    ensures
        contender(pool, picks, budget, lambda) matches Some(idx) ==> 0 <= idx < pool.len()
            && spent(candidate_ledger(picks)) + pool[idx].span_ref.token_cost <= budget,
{
    lemma_best_among_in_range(pool, embeddings_of(picks), lambda, pool.len());
    lemma_fitting_among(pool, (budget - spent(candidate_ledger(picks))) as nat, pool.len());
}

/// The greedy selection, from a pool and the spans picked so far. While
/// budget and candidates are left, a round takes the contender out of the
/// pool and picks it, unless the source-diversity guard turns it down. The
/// selection ends when the budget is used, the pool is empty, or nothing
/// fits any more.
pub open spec fn select_from(
    pool: Seq<CandidateSpan>,
    picks: Seq<CandidateSpan>,
    budget: nat,
    lambda: u32,
    ratio: u32,
) -> Seq<CandidateSpan>
    decreases pool.len(),
{
    if spent(candidate_ledger(picks)) >= budget || pool.len() == 0 {
        picks
    } else {
        match contender(pool, picks, budget, lambda) {
            None => picks,
            Some(idx) => {
                proof {
                    lemma_contender_in_range(pool, picks, budget, lambda);
                }
                if turned_down(pool, picks, idx, budget, ratio) {
                    select_from(pool.remove(idx), picks, budget, lambda, ratio)
                } else {
                    select_from(pool.remove(idx), picks.push(pool[idx]), budget, lambda, ratio)
                }
            },
        }
    }
}

/// The number of candidates that pre-pruning retains.
pub open spec fn prune_limit(budget: nat) -> nat {
    if budget / 100 > 200 {
        budget / 100
    } else {
        200
    }
}

/// The pool that the selection starts from: the candidates in ranking
/// order, cut down to the best `prune_limit(budget)`.
pub open spec fn pruned(candidates: Seq<CandidateSpan>, budget: nat) -> Seq<CandidateSpan> {
    let sorted = ranked(candidates);
    if prune_limit(budget) <= sorted.len() {
        sorted.take(prune_limit(budget) as int)
    } else {
        sorted
    }
}

/// The candidates that the selection picks, in the order of picking.
pub open spec fn selection(
    candidates: Seq<CandidateSpan>,
    budget: nat,
    lambda: u32,
    ratio: u32,
) -> Seq<CandidateSpan> {
    select_from(pruned(candidates, budget), Seq::empty(), budget, lambda, ratio)
}

/// The working-set item made from a picked candidate: its span and
/// metadata, with the preview as text for a memory and no text otherwise.
pub open spec fn carries(item: WSItem, c: CandidateSpan) -> bool {
    &&& item.span_ref == c.span_ref
    &&& item.metadata == c.metadata
    &&& item.text@ == if c.metadata.source_type == SourceType::Memory {
        c.text_preview@
    } else {
        Seq::<char>::empty()
    }
}

/// The explanation of a picked candidate, given the candidates picked
/// before it.
pub open spec fn explains(
    e: SpanExplanation,
    prior: Seq<CandidateSpan>,
    c: CandidateSpan,
    lambda: u32,
) -> bool {
    &&& e.span_ref == c.span_ref
    &&& e.final_score == mmr_score(c, embeddings_of(prior), lambda)
    &&& e.base_score == c.base_score
    &&& e.diversity_penalty == diversity_penalty(c, embeddings_of(prior), lambda)
    &&& texts(e.reasons@) == reasons(c, e.final_score as int)
}

/// The items carry the picked candidates, one for one.
pub open spec fn carry_all(items: Seq<WSItem>, picks: Seq<CandidateSpan>) -> bool {
    &&& items.len() == picks.len()
    &&& forall|i: int| 0 <= i < picks.len() ==> carries(#[trigger] items[i], picks[i])
}

/// The explanations explain the picked candidates, one for one.
pub open spec fn explain_all(
    explanations: Seq<SpanExplanation>,
    picks: Seq<CandidateSpan>,
    lambda: u32,
) -> bool {
    &&& explanations.len() == picks.len()
    &&& forall|i: int|
        0 <= i < picks.len() ==> explains(#[trigger] explanations[i], picks.take(i), picks[i], lambda)
}

/// The sources of a ledger, entry by entry.
pub open spec fn ledger_sources(ledger: Ledger) -> Seq<Seq<char>> {
    ledger.map_values(|e: (Seq<char>, nat)| e.0)
}

/// When the entry at index `k` was added, the source-diversity guard was
/// active: the selection as a whole comes from more than one source (a
/// source that was still waiting in the pool counts), and at least three
/// entries or a fifth of the budget came before the entry.
pub open spec fn guarded(ledger: Ledger, k: int, budget: nat) -> bool {
    several(ledger_sources(ledger)) && (k >= 3 || 5 * spent(ledger.take(k)) >= budget)
}

/// The source cap holds of a ledger: each entry that was added under an
/// active guard left its source with no more than `ratio` of the tokens
/// selected up to then.
pub open spec fn share_respected(ledger: Ledger, budget: nat, ratio: u32) -> bool {
    forall|k: int|
        0 <= k < ledger.len() && #[trigger] guarded(ledger, k, budget) ==> spent_on(
            ledger.take(k + 1),
            ledger[k].0,
        ) * SCORE_SCALE <= ratio * spent(ledger.take(k + 1))
}

/// The selection keeps what was picked before, in its place.
pub proof fn lemma_select_from_prefix(
    pool: Seq<CandidateSpan>,
    picks: Seq<CandidateSpan>,
    budget: nat,
    lambda: u32,
    ratio: u32,
)
    ensures
        picks.len() <= select_from(pool, picks, budget, lambda, ratio).len(),
        select_from(pool, picks, budget, lambda, ratio).take(picks.len() as int) == picks,
    decreases pool.len(),
{
    let out = select_from(pool, picks, budget, lambda, ratio);
    if spent(candidate_ledger(picks)) >= budget || pool.len() == 0 {
        assert(out.take(picks.len() as int) =~= picks);
    } else {
        lemma_contender_in_range(pool, picks, budget, lambda);
        match contender(pool, picks, budget, lambda) {
            None => {
                assert(out.take(picks.len() as int) =~= picks);
            },
            Some(idx) => {
                if turned_down(pool, picks, idx, budget, ratio) {
                    lemma_select_from_prefix(pool.remove(idx), picks, budget, lambda, ratio);
                } else {
                    let next = picks.push(pool[idx]);
                    lemma_select_from_prefix(pool.remove(idx), next, budget, lambda, ratio);
                    assert(out.take(picks.len() as int) =~= out.take(next.len() as int).take(
                        picks.len() as int,
                    ));
                    assert(next.take(picks.len() as int) =~= picks);
                }
            },
        }
    }
}

/// The source of a candidate that is picked or in the pool is in play.
proof fn lemma_source_in_play(
    pool: Seq<CandidateSpan>,
    picks: Seq<CandidateSpan>,
    idx: int,
    x: CandidateSpan,
) -> (p: int)
    requires
        0 <= idx < pool.len(),
        member(picks.push(pool[idx]), x) || member(pool.remove(idx), x),
    ensures
        0 <= p < sources_in_play(candidate_ledger(picks), pool).len(),
        sources_in_play(candidate_ledger(picks), pool)[p] == x.metadata.filepath@,
{
    let n = picks.len() as int;
    let next = picks.push(pool[idx]);
    let rest = pool.remove(idx);
    if member(next, x) {
        let j = choose|j: int| 0 <= j < next.len() && #[trigger] next[j] == x;
        if j < n {
            j
        } else {
            n + idx
        }
    } else {
        let j = choose|j: int| 0 <= j < rest.len() && #[trigger] rest[j] == x;
        if j < idx {
            n + j
        } else {
            n + j + 1
        }
    }
}

/// Every pick that the selection makes from here on keeps the source cap.
proof fn lemma_select_from_keeps_share(
    pool: Seq<CandidateSpan>,
    picks: Seq<CandidateSpan>,
    budget: nat,
    lambda: u32,
    ratio: u32,
)
    ensures
        forall|k: int|
            picks.len() <= k < select_from(pool, picks, budget, lambda, ratio).len()
                && #[trigger] guarded(
                candidate_ledger(select_from(pool, picks, budget, lambda, ratio)),
                k,
                budget,
            ) ==> spent_on(
                candidate_ledger(select_from(pool, picks, budget, lambda, ratio)).take(k + 1),
                candidate_ledger(select_from(pool, picks, budget, lambda, ratio))[k].0,
            ) * SCORE_SCALE <= ratio * spent(
                candidate_ledger(select_from(pool, picks, budget, lambda, ratio)).take(k + 1),
            ),
    decreases pool.len(),
{
    let out = select_from(pool, picks, budget, lambda, ratio);
    let full = candidate_ledger(out);
    if spent(candidate_ledger(picks)) >= budget || pool.len() == 0 {
        assert(out == picks);
    } else {
        lemma_contender_in_range(pool, picks, budget, lambda);
        match contender(pool, picks, budget, lambda) {
            None => {
                assert(out == picks);
            },
            Some(idx) => {
                let rest = pool.remove(idx);
                if turned_down(pool, picks, idx, budget, ratio) {
                    assert(out == select_from(rest, picks, budget, lambda, ratio));
                    lemma_select_from_keeps_share(rest, picks, budget, lambda, ratio);
                } else {
                    let c = pool[idx];
                    let next = picks.push(c);
                    let n = picks.len() as int;
                    let ledger = candidate_ledger(picks);
                    assert(out == select_from(rest, next, budget, lambda, ratio));
                    lemma_select_from_keeps_share(rest, next, budget, lambda, ratio);
                    lemma_select_from_prefix(rest, next, budget, lambda, ratio);
                    lemma_push_pick(picks, c);
                    assert(full.take(n + 1) =~= candidate_ledger(next)) by {
                        assert(out.take(n + 1) == next);
                        assert forall|i: int| 0 <= i < n + 1 implies full.take(n + 1)[i]
                            == candidate_ledger(next)[i] by {
                            assert(out.take(n + 1)[i] == out[i]);
                        }
                    }
                    assert(full.take(n) =~= ledger) by {
                        assert(full.take(n) =~= full.take(n + 1).take(n));
                        assert(candidate_ledger(next).take(n) =~= ledger);
                    }
                    assert(full[n] == full.take(n + 1)[n]);
                    assert(full[n] == (c.metadata.filepath@, c.span_ref.token_cost as nat));
                    if guarded(full, n, budget) {
                        let src = ledger_sources(full);
                        let (i, j) = choose|i: int, j: int|
                            0 <= i < j < src.len() && src[i] != src[j];
                        lemma_select_from_members(rest, next, budget, lambda, ratio, i);
                        lemma_select_from_members(rest, next, budget, lambda, ratio, j);
                        let p = lemma_source_in_play(pool, picks, idx, out[i]);
                        let q = lemma_source_in_play(pool, picks, idx, out[j]);
                        let play = sources_in_play(ledger, pool);
                        assert(play[p] == src[i] && play[q] == src[j]);
                        if p < q {
                            assert(play[p] != play[q]);
                        } else {
                            assert(play[q] != play[p]);
                        }
                        assert(several(play));
                        assert(guard_active(ledger, pool, budget));
                        assert(!over_share(
                            ledger,
                            c.metadata.filepath@,
                            c.span_ref.token_cost as nat,
                            ratio,
                        ));
                        let grown = candidate_ledger(next);
                        assert(grown.drop_last() =~= ledger);
                        assert(spent_on(grown, c.metadata.filepath@) == spent_on(
                            ledger,
                            c.metadata.filepath@,
                        ) + c.span_ref.token_cost);
                        assert(spent_on(full.take(n + 1), full[n].0) * SCORE_SCALE <= ratio * spent(
                            full.take(n + 1),
                        ));
                    }
                }
            },
        }
    }
}

/// The selection keeps the source cap.
pub proof fn lemma_selection_keeps_share(
    candidates: Seq<CandidateSpan>,
    budget: nat,
    lambda: u32,
    ratio: u32,
)
    ensures
        share_respected(
            candidate_ledger(selection(candidates, budget, lambda, ratio)),
            budget,
            ratio,
        ),
{
    lemma_select_from_keeps_share(
        pruned(candidates, budget),
        Seq::empty(),
        budget,
        lambda,
        ratio,
    );
}

/// The selection never spends more than the budget.
pub proof fn lemma_select_from_within_budget(
    pool: Seq<CandidateSpan>,
    picks: Seq<CandidateSpan>,
    budget: nat,
    lambda: u32,
    ratio: u32,
)
    requires
        spent(candidate_ledger(picks)) <= budget,
    ensures
        spent(candidate_ledger(select_from(pool, picks, budget, lambda, ratio))) <= budget,
    decreases pool.len(),
{
    if spent(candidate_ledger(picks)) >= budget || pool.len() == 0 {
    } else {
        lemma_contender_in_range(pool, picks, budget, lambda);
        match contender(pool, picks, budget, lambda) {
            None => {},
            Some(idx) => {
                if turned_down(pool, picks, idx, budget, ratio) {
                    lemma_select_from_within_budget(pool.remove(idx), picks, budget, lambda, ratio);
                } else {
                    lemma_push_pick(picks, pool[idx]);
                    lemma_select_from_within_budget(
                        pool.remove(idx),
                        picks.push(pool[idx]),
                        budget,
                        lambda,
                        ratio,
                    );
                }
            },
        }
    }
}

/// The selection stays within the budget and keeps the source cap.
pub proof fn lemma_selection_bounds(
    candidates: Seq<CandidateSpan>,
    budget: nat,
    lambda: u32,
    ratio: u32,
)
    ensures
        spent(candidate_ledger(selection(candidates, budget, lambda, ratio))) <= budget,
        share_respected(
            candidate_ledger(selection(candidates, budget, lambda, ratio)),
            budget,
            ratio,
        ),
{
    let empty = Seq::<CandidateSpan>::empty();
    assert(candidate_ledger(empty) =~= Seq::empty());
    lemma_select_from_within_budget(pruned(candidates, budget), empty, budget, lambda, ratio);
    lemma_selection_keeps_share(candidates, budget, lambda, ratio);
}

/// Every candidate of the pruned pool is one of the candidates given, and
/// pruning a list without duplicates gives a list without duplicates.
pub proof fn lemma_pruned(candidates: Seq<CandidateSpan>, budget: nat)
    ensures
        forall|i: int|
            0 <= i < pruned(candidates, budget).len() ==> member(
                candidates,
                #[trigger] pruned(candidates, budget)[i],
            ),
        distinct_spans(candidates) ==> distinct_spans(pruned(candidates, budget)),
{
    let sorted = ranked(candidates);
    let pool = pruned(candidates, budget);
    assert forall|i: int| 0 <= i < pool.len() implies member(candidates, #[trigger] pool[i]) by {
        assert(pool[i] == sorted[i]);
        lemma_ranked_members(candidates, i);
    }
    if distinct_spans(candidates) {
        lemma_ranked_distinct(candidates);
        assert forall|i: int, j: int| 0 <= i < j < pool.len() implies (#[trigger] pool[i]).identity()
            != (#[trigger] pool[j]).identity() by {
            assert(pool[i] == sorted[i] && pool[j] == sorted[j]);
        }
    }
}

/// Every candidate that the selection holds at its end was picked before
/// or comes from the pool.
pub proof fn lemma_select_from_members(
    pool: Seq<CandidateSpan>,
    picks: Seq<CandidateSpan>,
    budget: nat,
    lambda: u32,
    ratio: u32,
    i: int,
)
    requires
        0 <= i < select_from(pool, picks, budget, lambda, ratio).len(),
    ensures
        member(picks, select_from(pool, picks, budget, lambda, ratio)[i]) || member(
            pool,
            select_from(pool, picks, budget, lambda, ratio)[i],
        ),
    decreases pool.len(),
{
    let out = select_from(pool, picks, budget, lambda, ratio);
    if spent(candidate_ledger(picks)) >= budget || pool.len() == 0 {
        assert(picks[i] == out[i]);
    } else {
        lemma_contender_in_range(pool, picks, budget, lambda);
        match contender(pool, picks, budget, lambda) {
            None => {
                assert(picks[i] == out[i]);
            },
            Some(idx) => {
                let rest = pool.remove(idx);
                let next = if turned_down(pool, picks, idx, budget, ratio) {
                    picks
                } else {
                    picks.push(pool[idx])
                };
                lemma_select_from_members(rest, next, budget, lambda, ratio, i);
                if member(next, out[i]) {
                    let j = choose|j: int| 0 <= j < next.len() && #[trigger] next[j] == out[i];
                    if j < picks.len() {
                        assert(picks[j] == out[i]);
                    } else {
                        assert(pool[idx] == out[i]);
                    }
                } else {
                    let j = choose|j: int| 0 <= j < rest.len() && #[trigger] rest[j] == out[i];
                    if j < idx {
                        assert(pool[j] == out[i]);
                    } else {
                        assert(pool[j + 1] == out[i]);
                    }
                }
            },
        }
    }
}

/// Where no span occurs twice among the picked candidates and the pool
/// together, none occurs twice in what the selection holds at its end.
pub proof fn lemma_select_from_distinct(
    pool: Seq<CandidateSpan>,
    picks: Seq<CandidateSpan>,
    budget: nat,
    lambda: u32,
    ratio: u32,
)
    requires
        distinct_spans(picks + pool),
    ensures
        distinct_spans(select_from(pool, picks, budget, lambda, ratio)),
    decreases pool.len(),
{
    let both = picks + pool;
    let n = picks.len() as int;
    if spent(candidate_ledger(picks)) >= budget || pool.len() == 0 || contender(
        pool,
        picks,
        budget,
        lambda,
    ) is None {
        assert forall|i: int, j: int| 0 <= i < j < picks.len() implies (#[trigger] picks[i]).identity()
            != (#[trigger] picks[j]).identity() by {
            assert(both[i] == picks[i] && both[j] == picks[j]);
        }
    } else {
        lemma_contender_in_range(pool, picks, budget, lambda);
        let idx = contender(pool, picks, budget, lambda)->0;
        let rest = pool.remove(idx);
        let next = if turned_down(pool, picks, idx, budget, ratio) {
            picks
        } else {
            picks.push(pool[idx])
        };
        let after = next + rest;
        assert forall|i: int, j: int| 0 <= i < j < after.len() implies (#[trigger] after[i]).identity()
            != (#[trigger] after[j]).identity() by {
            let m = next.len() as int;
            let a = if i < n {
                i
            } else if i < m {
                n + idx
            } else if i - m < idx {
                n + (i - m)
            } else {
                n + (i - m) + 1
            };
            let b = if j < n {
                j
            } else if j < m {
                n + idx
            } else if j - m < idx {
                n + (j - m)
            } else {
                n + (j - m) + 1
            };
            assert(after[i] == both[a]);
            assert(after[j] == both[b]);
            assert(a != b);
            if a < b {
                assert(both[a].identity() != both[b].identity());
            } else {
                assert(both[b].identity() != both[a].identity());
            }
        }
        lemma_select_from_distinct(rest, next, budget, lambda, ratio);
    }
}

/// The selection picks no span twice where the candidates hold none twice,
/// and every picked candidate is one of those given.
pub proof fn lemma_selection_members(
    candidates: Seq<CandidateSpan>,
    budget: nat,
    lambda: u32,
    ratio: u32,
)
    ensures
        forall|i: int|
            0 <= i < selection(candidates, budget, lambda, ratio).len() ==> member(
                candidates,
                #[trigger] selection(candidates, budget, lambda, ratio)[i],
            ),
        distinct_spans(candidates) ==> distinct_spans(
            selection(candidates, budget, lambda, ratio),
        ),
{
    let pool = pruned(candidates, budget);
    let empty = Seq::<CandidateSpan>::empty();
    let out = selection(candidates, budget, lambda, ratio);
    lemma_pruned(candidates, budget);
    assert forall|i: int| 0 <= i < out.len() implies member(candidates, #[trigger] out[i]) by {
        lemma_select_from_members(pool, empty, budget, lambda, ratio, i);
        let j = choose|j: int| 0 <= j < pool.len() && #[trigger] pool[j] == out[i];
        assert(member(candidates, pool[j]));
    }
    if distinct_spans(candidates) {
        assert(empty + pool =~= pool);
        lemma_select_from_distinct(pool, empty, budget, lambda, ratio);
    }
}

/// The selection does not depend on the order in which the candidates are
/// given, where they hold no span twice.
pub proof fn lemma_selection_order_free(
    a: Seq<CandidateSpan>,
    b: Seq<CandidateSpan>,
    budget: nat,
    lambda: u32,
    ratio: u32,
)
    requires
        distinct_spans(a),
        distinct_spans(b),
        within(a, b),
        within(b, a),
    ensures
        selection(a, budget, lambda, ratio) == selection(b, budget, lambda, ratio),
{
    lemma_ranking_order_free(a, b);
}

proof fn lemma_remove_well_formed(pool: Seq<CandidateSpan>, idx: int)
    requires
        all_well_formed(pool),
        0 <= idx < pool.len(),
    ensures
        all_well_formed(pool.remove(idx)),
{
    assert forall|i: int| 0 <= i < pool.remove(idx).len() implies (#[trigger] pool.remove(
        idx,
    )[i]).well_formed() by {
        if i < idx {
            assert(pool.remove(idx)[i] == pool[i]);
        } else {
            assert(pool.remove(idx)[i] == pool[i + 1]);
        }
    }
}

proof fn lemma_push_pick(picks: Seq<CandidateSpan>, c: CandidateSpan)
    ensures
        candidate_ledger(picks.push(c)) == candidate_ledger(picks).push(
            (c.metadata.filepath@, c.span_ref.token_cost as nat),
        ),
        spent(candidate_ledger(picks.push(c))) == spent(candidate_ledger(picks))
            + c.span_ref.token_cost,
        embeddings_of(picks.push(c)) == match c.embedding {
            Some(e) => embeddings_of(picks).push(e),
            None => embeddings_of(picks),
        },
{
    let entry = (c.metadata.filepath@, c.span_ref.token_cost as nat);
    assert(candidate_ledger(picks.push(c)) =~= candidate_ledger(picks).push(entry));
    assert(candidate_ledger(picks).push(entry).drop_last() =~= candidate_ledger(picks));
    assert(picks.push(c).drop_last() =~= picks);
}

/// Selects spans by MMR within the token budget.
///
/// The candidates are ranked and pruned, then picked greedily as
/// `selection` says. Each picked candidate gives one working-set item and,
/// where `explain` is set, one explanation.
pub fn select_with_mmr(
    candidates: Vec<CandidateSpan>,
    budget_tokens: usize,
    prefs: &SoftPreferences,
    explain: bool,
) -> (out: (Vec<WSItem>, Vec<SpanExplanation>))
    requires
        all_well_formed(candidates@),
    ensures
        carry_all(
            out.0@,
            selection(
                candidates@,
                budget_tokens as nat,
                prefs.diversity_lambda,
                prefs.max_single_source_ratio,
            ),
        ),
        explain ==> explain_all(
            out.1@,
            selection(
                candidates@,
                budget_tokens as nat,
                prefs.diversity_lambda,
                prefs.max_single_source_ratio,
            ),
            prefs.diversity_lambda,
        ),
        !explain ==> out.1@.len() == 0,
        spent(item_ledger(out.0@)) <= budget_tokens,
        share_respected(
            item_ledger(out.0@),
            budget_tokens as nat,
            prefs.max_single_source_ratio,
        ),
        distinct_spans(candidates@) ==> distinct_items(out.0@),
{
    let lambda = prefs.diversity_lambda;
    let ratio = prefs.max_single_source_ratio;
    let ghost target = selection(candidates@, budget_tokens as nat, lambda, ratio);
    proof {
        lemma_ranked_well_formed(candidates@);
    }
    let mut pool = rank_candidates(candidates);
    let limit: usize = if budget_tokens / 100 > 200 {
        budget_tokens / 100
    } else {
        200
    };
    pool.truncate(limit);
    let mut selected: Vec<WSItem> = Vec::new();
    let mut explanations: Vec<SpanExplanation> = Vec::new();
    let mut selected_embeddings: Vec<Vec<i32>> = Vec::new();
    let mut used_tokens: usize = 0;
    let mut exhausted = false;
    let ghost mut picks: Seq<CandidateSpan> = Seq::empty();
    proof {
        assert(pool@ == pruned(candidates@, budget_tokens as nat));
        assert(item_ledger(selected@) =~= candidate_ledger(picks));
    }
    while !exhausted && used_tokens < budget_tokens && pool.len() > 0
        invariant
            all_well_formed(pool@),
            all_bounded(selected_embeddings@),
            selected_embeddings@ == embeddings_of(picks),
            item_ledger(selected@) == candidate_ledger(picks),
            used_tokens == spent(candidate_ledger(picks)),
            used_tokens <= budget_tokens,
            select_from(pool@, picks, budget_tokens as nat, lambda, ratio) == target,
            exhausted ==> select_from(pool@, picks, budget_tokens as nat, lambda, ratio) == picks,
            carry_all(selected@, picks),
            explain ==> explain_all(explanations@, picks, lambda),
            !explain ==> explanations@.len() == 0,
        decreases pool@.len() + if exhausted { 0int } else { 1int },
    {
        proof {
            lemma_contender_in_range(pool@, picks, budget_tokens as nat, lambda);
        }
        let best = find_best_mmr(&pool, &selected_embeddings, lambda);
        let room = budget_tokens - used_tokens;
        let mut idx = best.0;
        let mut score = best.1;
        let mut penalty = best.2;
        if pool[idx].span_ref.token_cost > room {
            match find_smaller_span(&pool, room) {
                Some(smaller) => {
                    idx = smaller;
                    proof {
                        lemma_mmr_bounds(pool@[idx as int], selected_embeddings@, lambda);
                    }
                    let m = mmr_of(&pool[idx], &selected_embeddings, lambda);
                    score = rescale(m.0);
                    penalty = rescale(m.1);
                },
                None => {
                    exhausted = true;
                },
            }
        }
        if !exhausted {
            assert(contender(pool@, picks, budget_tokens as nat, lambda) == Some(idx as int));
            let cost = pool[idx].span_ref.token_cost;
            let source_tokens = tokens_from(&selected, &pool[idx].metadata.filepath);
            proof {
                lemma_spent_on_le_spent(candidate_ledger(picks), pool@[idx as int].metadata.filepath@);
            }
            let warmed = selected.len() >= 3 || (used_tokens as u128) * 5 >= budget_tokens as u128;
            let active = warmed && has_several_sources(&selected, &pool);
            let total = (used_tokens + cost) as u128;
            assert((ratio as u128) * total <= 0xffff_ffff * 0xffff_ffff_ffff_ffff) by (nonlinear_arith)
                requires
                    ratio <= 0xffff_ffff,
                    total <= 0xffff_ffff_ffff_ffff,
            ;
            let over = ((source_tokens + cost) as u128) * 1_000_000 > (ratio as u128) * total;
            proof {
                lemma_remove_well_formed(pool@, idx as int);
            }
            if active && over {
                assert(turned_down(pool@, picks, idx as int, budget_tokens as nat, ratio));
                pool.remove(idx);
            } else {
                assert(!turned_down(pool@, picks, idx as int, budget_tokens as nat, ratio));
                let candidate = pool.remove(idx);
                proof {
                    lemma_push_pick(picks, candidate);
                }
                if explain {
                    let reasons = explain_candidate(&candidate, score);
                    explanations.push(
                        SpanExplanation {
                            span_ref: candidate.span_ref.duplicate(),
                            final_score: score,
                            base_score: candidate.base_score,
                            diversity_penalty: penalty,
                            reasons,
                        },
                    );
                }
                let CandidateSpan { span_ref, embedding, text_preview, metadata, .. } = candidate;
                let text = if metadata.source_type == SourceType::Memory {
                    text_preview
                } else {
                    String::new()
                };
                selected.push(WSItem { span_ref, text, metadata });
                match embedding {
                    Some(e) => {
                        selected_embeddings.push(e);
                    },
                    None => {},
                }
                used_tokens = used_tokens + cost;
                proof {
                    let ghost before = picks;
                    picks = picks.push(candidate);
                    assert(picks.take(before.len() as int) =~= before);
                    assert forall|i: int| 0 <= i < before.len() implies picks.take(i)
                        == before.take(i) by {
                        assert(picks.take(i) =~= before.take(i));
                    }
                    assert(item_ledger(selected@) =~= candidate_ledger(picks));
                }
            }
        }
    }
    proof {
        lemma_selection_bounds(candidates@, budget_tokens as nat, lambda, ratio);
        lemma_selection_members(candidates@, budget_tokens as nat, lambda, ratio);
        if distinct_spans(candidates@) {
            assert forall|i: int, j: int| 0 <= i < j < selected@.len() implies (
            #[trigger] selected@[i]).span_ref.identity() != (
            #[trigger] selected@[j]).span_ref.identity() by {
                assert(picks[i].identity() != picks[j].identity());
            }
        }
    }
    (selected, explanations)
}

} // verus!
