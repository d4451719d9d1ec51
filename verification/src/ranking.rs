//! The ranking of candidates: by base score and, among equal base scores,
//! by the identity of the span, so that the ranking does not depend on the
//! order in which the candidates arrive.

use vstd::prelude::*;
use crate::text::{
    compare_text, lemma_lex_asymmetric, lemma_lex_total, lemma_lex_transitive, lex_lt, text_bytes,
    Rank,
};
use crate::types::{all_well_formed, distinct_spans, CandidateSpan, SpanRef};

verus! {

/// Order of span identities: by the bytes of `doc_version_id`, then by the
/// bytes of `span_id`.
pub open spec fn key_before(a: SpanRef, b: SpanRef) -> bool {
    let doc_a = text_bytes(a.doc_version_id@);
    let doc_b = text_bytes(b.doc_version_id@);
    lex_lt(doc_a, doc_b) || (doc_a == doc_b && lex_lt(
        text_bytes(a.span_id@),
        text_bytes(b.span_id@),
    ))
}

/// `a` ranks strictly before `b`: the higher base score first and, among
/// equal base scores, the smaller identity first.
pub open spec fn ranks_before(a: CandidateSpan, b: CandidateSpan) -> bool {
    a.base_score > b.base_score || (a.base_score == b.base_score && key_before(
        a.span_ref,
        b.span_ref,
    ))
}

/// The number of leading elements of `sorted` that rank strictly before `c`.
pub open spec fn slot(sorted: Seq<CandidateSpan>, c: CandidateSpan) -> nat
    decreases sorted.len(),
{
    if sorted.len() == 0 {
        0
    } else if ranks_before(sorted[0], c) {
        1 + slot(sorted.drop_first(), c)
    } else {
        0
    }
}

/// The candidates in ranking order. Candidates of which neither ranks before
/// the other keep the order in which they were given.
pub open spec fn ranked(candidates: Seq<CandidateSpan>) -> Seq<CandidateSpan>
    decreases candidates.len(),
{
    if candidates.len() == 0 {
        candidates
    } else {
        let rest = ranked(candidates.drop_first());
        rest.insert(slot(rest, candidates[0]) as int, candidates[0])
    }
}

/// No candidate of the list ranks before one that stands before it.
pub open spec fn in_rank_order(list: Seq<CandidateSpan>) -> bool {
    forall|i: int, j: int| 0 <= i < j < list.len() ==> !ranks_before(#[trigger] list[j], #[trigger] list[i])
}

/// Each candidate of the list ranks before all that stand behind it.
pub open spec fn strictly_ranked(list: Seq<CandidateSpan>) -> bool {
    forall|i: int, j: int| 0 <= i < j < list.len() ==> ranks_before(#[trigger] list[i], #[trigger] list[j])
}

/// The candidate `x` is one of `list`.
pub open spec fn member(list: Seq<CandidateSpan>, x: CandidateSpan) -> bool {
    exists|j: int| 0 <= j < list.len() && #[trigger] list[j] == x
}

/// Every candidate of the one list is one of the other.
pub open spec fn within(list: Seq<CandidateSpan>, other: Seq<CandidateSpan>) -> bool {
    forall|i: int| 0 <= i < list.len() ==> member(other, #[trigger] list[i])
}

pub proof fn lemma_slot_in_range(sorted: Seq<CandidateSpan>, c: CandidateSpan)
    ensures
        slot(sorted, c) <= sorted.len(),
    decreases sorted.len(),
{
    if sorted.len() > 0 {
        lemma_slot_in_range(sorted.drop_first(), c);
    }
}

/// Ranking keeps the number of candidates.
pub proof fn lemma_ranked_len(candidates: Seq<CandidateSpan>)
    ensures
        ranked(candidates).len() == candidates.len(),
    decreases candidates.len(),
{
    if candidates.len() > 0 {
        lemma_ranked_len(candidates.drop_first());
        lemma_slot_in_range(ranked(candidates.drop_first()), candidates[0]);
    }
}

/// The ranked list holds the candidates given, each as often as it was
/// given.
pub proof fn lemma_ranked_permutes(candidates: Seq<CandidateSpan>)
    ensures
        ranked(candidates).to_multiset() == candidates.to_multiset(),
    decreases candidates.len(),
{
    if candidates.len() > 0 {
        let rest = candidates.drop_first();
        let sorted = ranked(rest);
        lemma_ranked_permutes(rest);
        lemma_slot_in_range(sorted, candidates[0]);
        vstd::seq_lib::to_multiset_insert(sorted, slot(sorted, candidates[0]) as int, candidates[0]);
        vstd::seq_lib::to_multiset_insert(rest, 0, candidates[0]);
        assert(rest.insert(0, candidates[0]) =~= candidates);
    }
}

/// Every candidate of the ranked list is one of the candidates given.
pub proof fn lemma_ranked_members(candidates: Seq<CandidateSpan>, i: int)
    requires
        0 <= i < ranked(candidates).len(),
    ensures
        member(candidates, ranked(candidates)[i]),
    decreases candidates.len(),
{
    lemma_ranked_len(candidates);
    let rest = candidates.drop_first();
    let sorted = ranked(rest);
    lemma_ranked_len(rest);
    lemma_slot_in_range(sorted, candidates[0]);
    let p = slot(sorted, candidates[0]) as int;
    if i == p {
        assert(candidates[0] == ranked(candidates)[i]);
    } else {
        let k = if i < p {
            i
        } else {
            i - 1
        };
        assert(ranked(candidates)[i] == sorted[k]);
        lemma_ranked_members(rest, k);
        let j = choose|j: int| 0 <= j < rest.len() && #[trigger] rest[j] == sorted[k];
        assert(candidates[j + 1] == sorted[k]);
    }
}

/// Every candidate given is one of the ranked list.
pub proof fn lemma_ranked_covers(candidates: Seq<CandidateSpan>, i: int)
    requires
        0 <= i < candidates.len(),
    ensures
        member(ranked(candidates), candidates[i]),
    decreases candidates.len(),
{
    let rest = candidates.drop_first();
    let sorted = ranked(rest);
    lemma_slot_in_range(sorted, candidates[0]);
    let p = slot(sorted, candidates[0]) as int;
    let out = ranked(candidates);
    if i == 0 {
        assert(out[p] == candidates[0]);
    } else {
        lemma_ranked_covers(rest, i - 1);
        let k = choose|k: int| 0 <= k < sorted.len() && #[trigger] sorted[k] == rest[i - 1];
        if k < p {
            assert(out[k] == candidates[i]);
        } else {
            assert(out[k + 1] == candidates[i]);
        }
    }
}

/// Ranking keeps every candidate well-formed.
pub proof fn lemma_ranked_well_formed(candidates: Seq<CandidateSpan>)
    requires
        all_well_formed(candidates),
    ensures
        all_well_formed(ranked(candidates)),
    decreases candidates.len(),
{
    if candidates.len() > 0 {
        let rest = candidates.drop_first();
        assert(all_well_formed(rest)) by {
            assert forall|i: int| 0 <= i < rest.len() implies (#[trigger] rest[i]).well_formed() by {
                assert(rest[i] == candidates[i + 1]);
            }
        }
        lemma_ranked_well_formed(rest);
        lemma_slot_in_range(ranked(rest), candidates[0]);
    }
}

/// Of two spans at most one comes before the other.
pub proof fn lemma_key_asymmetric(a: SpanRef, b: SpanRef)
    ensures
        !(key_before(a, b) && key_before(b, a)),
{
    lemma_lex_asymmetric(text_bytes(a.doc_version_id@), text_bytes(b.doc_version_id@));
    lemma_lex_asymmetric(text_bytes(a.span_id@), text_bytes(b.span_id@));
}

/// Where `a` does not come before `b` and `b` does not come before `c`, `a`
/// does not come before `c`.
pub proof fn lemma_key_order(a: SpanRef, b: SpanRef, c: SpanRef)
    requires
        !key_before(a, b),
        !key_before(b, c),
    ensures
        !key_before(a, c),
{
    let (da, db, dc) = (
        text_bytes(a.doc_version_id@),
        text_bytes(b.doc_version_id@),
        text_bytes(c.doc_version_id@),
    );
    let (sa, sb, sc) = (text_bytes(a.span_id@), text_bytes(b.span_id@), text_bytes(c.span_id@));
    lemma_lex_total(da, db);
    lemma_lex_total(db, dc);
    lemma_lex_total(sa, sb);
    lemma_lex_total(sb, sc);
    lemma_lex_asymmetric(da, dc);
    lemma_lex_asymmetric(sa, sc);
    lemma_lex_asymmetric(da, db);
    lemma_lex_asymmetric(db, dc);
    if lex_lt(dc, db) && lex_lt(db, da) {
        lemma_lex_transitive(dc, db, da);
    }
    if lex_lt(sc, sb) && lex_lt(sb, sa) {
        lemma_lex_transitive(sc, sb, sa);
    }
}

/// Of two candidates at most one ranks before the other.
pub proof fn lemma_ranks_asymmetric(a: CandidateSpan, b: CandidateSpan)
    ensures
        !(ranks_before(a, b) && ranks_before(b, a)),
{
    lemma_key_asymmetric(a.span_ref, b.span_ref);
}

/// Where `a` does not rank before `b` and `b` does not rank before `c`, `a`
/// does not rank before `c`.
pub proof fn lemma_ranks_order(a: CandidateSpan, b: CandidateSpan, c: CandidateSpan)
    requires
        !ranks_before(a, b),
        !ranks_before(b, c),
    ensures
        !ranks_before(a, c),
{
    if a.base_score == b.base_score && b.base_score == c.base_score {
        lemma_key_order(a.span_ref, b.span_ref, c.span_ref);
    }
}

/// Different texts have different bytes.
proof fn lemma_text_bytes_injective(a: Seq<char>, b: Seq<char>)
    requires
        text_bytes(a) == text_bytes(b),
    ensures
        a == b,
{
    vstd::utf8::encode_utf8_decode_utf8(a);
    vstd::utf8::encode_utf8_decode_utf8(b);
}

/// Of two candidates of different spans one ranks before the other.
pub proof fn lemma_ranks_total(a: CandidateSpan, b: CandidateSpan)
    requires
        a.identity() != b.identity(),
    ensures
        ranks_before(a, b) || ranks_before(b, a),
{
    let (da, db) = (text_bytes(a.span_ref.doc_version_id@), text_bytes(b.span_ref.doc_version_id@));
    let (sa, sb) = (text_bytes(a.span_ref.span_id@), text_bytes(b.span_ref.span_id@));
    lemma_lex_total(da, db);
    lemma_lex_total(sa, sb);
    if da == db && sa == sb {
        lemma_text_bytes_injective(a.span_ref.doc_version_id@, b.span_ref.doc_version_id@);
        lemma_text_bytes_injective(a.span_ref.span_id@, b.span_ref.span_id@);
    }
}

proof fn lemma_slot_bounds(sorted: Seq<CandidateSpan>, c: CandidateSpan)
    ensures
        slot(sorted, c) <= sorted.len(),
        forall|i: int| 0 <= i < slot(sorted, c) ==> ranks_before(#[trigger] sorted[i], c),
        slot(sorted, c) < sorted.len() ==> !ranks_before(sorted[slot(sorted, c) as int], c),
    decreases sorted.len(),
{
    if sorted.len() > 0 && ranks_before(sorted[0], c) {
        let rest = sorted.drop_first();
        lemma_slot_bounds(rest, c);
        assert forall|i: int| 0 <= i < slot(sorted, c) implies ranks_before(
            #[trigger] sorted[i],
            c,
        ) by {
            if i > 0 {
                assert(sorted[i] == rest[i - 1]);
            }
        }
        if slot(sorted, c) < sorted.len() {
            assert(sorted[slot(sorted, c) as int] == rest[slot(rest, c) as int]);
        }
    }
}

/// The ranked list is in rank order: the higher base score stands first
/// and, among equal base scores, the smaller identity.
pub proof fn lemma_ranked_in_order(candidates: Seq<CandidateSpan>)
    ensures
        in_rank_order(ranked(candidates)),
    decreases candidates.len(),
{
    if candidates.len() > 0 {
        let rest = candidates.drop_first();
        let sorted = ranked(rest);
        let c = candidates[0];
        lemma_ranked_in_order(rest);
        lemma_slot_bounds(sorted, c);
        let p = slot(sorted, c) as int;
        let out = ranked(candidates);
        assert forall|i: int, j: int| 0 <= i < j < out.len() implies !ranks_before(
            #[trigger] out[j],
            #[trigger] out[i],
        ) by {
            if j == p {
                assert(out[i] == sorted[i]);
                lemma_ranks_asymmetric(sorted[i], c);
            } else if i == p {
                assert(out[j] == sorted[j - 1]);
                if j - 1 > p {
                    assert(!ranks_before(sorted[j - 1], sorted[p]));
                    lemma_ranks_order(sorted[j - 1], sorted[p], c);
                }
            } else {
                let a = if i < p {
                    i
                } else {
                    i - 1
                };
                let b = if j < p {
                    j
                } else {
                    j - 1
                };
                assert(out[i] == sorted[a] && out[j] == sorted[b]);
            }
        }
    }
}

/// Ranking a list without duplicates gives a list without duplicates.
pub proof fn lemma_ranked_distinct(candidates: Seq<CandidateSpan>)
    requires
        distinct_spans(candidates),
    ensures
        distinct_spans(ranked(candidates)),
    decreases candidates.len(),
{
    if candidates.len() > 0 {
        let rest = candidates.drop_first();
        let sorted = ranked(rest);
        assert(distinct_spans(rest)) by {
            assert forall|i: int, j: int| 0 <= i < j < rest.len() implies (#[trigger] rest[i]).identity()
                != (#[trigger] rest[j]).identity() by {
                assert(rest[i] == candidates[i + 1] && rest[j] == candidates[j + 1]);
            }
        }
        lemma_ranked_distinct(rest);
        lemma_ranked_len(rest);
        lemma_slot_in_range(sorted, candidates[0]);
        let p = slot(sorted, candidates[0]) as int;
        let out = ranked(candidates);
        assert forall|i: int, j: int| 0 <= i < j < out.len() implies (#[trigger] out[i]).identity()
            != (#[trigger] out[j]).identity() by {
            if i == p || j == p {
                let other = if i == p {
                    j - 1
                } else {
                    i
                };
                assert(out[p] == candidates[0]);
                assert(out[if i == p {
                    j
                } else {
                    i
                }] == sorted[other]);
                lemma_ranked_members(rest, other);
                let k = choose|k: int| 0 <= k < rest.len() && #[trigger] rest[k] == sorted[other];
                assert(candidates[k + 1] == sorted[other]);
                assert(candidates[0].identity() != candidates[k + 1].identity());
            } else {
                let a = if i < p {
                    i
                } else {
                    i - 1
                };
                let b = if j < p {
                    j
                } else {
                    j - 1
                };
                assert(out[i] == sorted[a] && out[j] == sorted[b]);
                assert(sorted[a].identity() != sorted[b].identity());
            }
        }
    }
}

/// A ranked list without duplicates is strictly ranked.
pub proof fn lemma_ranked_strictly(candidates: Seq<CandidateSpan>)
    requires
        distinct_spans(candidates),
    ensures
        strictly_ranked(ranked(candidates)),
{
    let out = ranked(candidates);
    lemma_ranked_distinct(candidates);
    lemma_ranked_in_order(candidates);
    assert forall|i: int, j: int| 0 <= i < j < out.len() implies ranks_before(
        #[trigger] out[i],
        #[trigger] out[j],
    ) by {
        lemma_ranks_total(out[i], out[j]);
    }
}

proof fn lemma_strictly_ranked_unique(x: Seq<CandidateSpan>, y: Seq<CandidateSpan>)
    requires
        strictly_ranked(x),
        strictly_ranked(y),
        within(x, y),
        within(y, x),
    ensures
        x == y,
    decreases x.len(),
{
    if x.len() == 0 {
        if y.len() > 0 {
            assert(member(x, y[0]));
        }
        assert(x =~= y);
    } else {
        assert(member(y, x[0]));
        let k = choose|k: int| 0 <= k < y.len() && #[trigger] y[k] == x[0];
        assert(member(x, y[0]));
        let m = choose|m: int| 0 <= m < x.len() && #[trigger] x[m] == y[0];
        lemma_ranks_asymmetric(x[0], y[0]);
        lemma_ranks_asymmetric(x[0], x[0]);
        if k > 0 {
            assert(ranks_before(y[0], y[k]));
            if m > 0 {
                assert(ranks_before(x[0], x[m]));
            }
        }
        assert(x[0] == y[0]);
        let xt = x.drop_first();
        let yt = y.drop_first();
        assert forall|i: int| 0 <= i < xt.len() implies member(yt, #[trigger] xt[i]) by {
            assert(member(y, x[i + 1]));
            let j = choose|j: int| 0 <= j < y.len() && #[trigger] y[j] == x[i + 1];
            assert(ranks_before(x[0], x[i + 1]));
            assert(j > 0);
            assert(yt[j - 1] == xt[i]);
        }
        assert forall|i: int| 0 <= i < yt.len() implies member(xt, #[trigger] yt[i]) by {
            assert(member(x, y[i + 1]));
            let j = choose|j: int| 0 <= j < x.len() && #[trigger] x[j] == y[i + 1];
            assert(ranks_before(y[0], y[i + 1]));
            assert(j > 0);
            assert(xt[j - 1] == yt[i]);
        }
        assert forall|i: int, j: int| 0 <= i < j < xt.len() implies ranks_before(
            #[trigger] xt[i],
            #[trigger] xt[j],
        ) by {
            assert(ranks_before(x[i + 1], x[j + 1]));
        }
        assert forall|i: int, j: int| 0 <= i < j < yt.len() implies ranks_before(
            #[trigger] yt[i],
            #[trigger] yt[j],
        ) by {
            assert(ranks_before(y[i + 1], y[j + 1]));
        }
        lemma_strictly_ranked_unique(xt, yt);
        assert(x =~= seq![x[0]] + xt);
        assert(y =~= seq![y[0]] + yt);
    }
}

/// The ranking does not depend on the order in which the candidates are
/// given: two lists without duplicates that hold the same candidates are
/// ranked alike.
pub proof fn lemma_ranking_order_free(a: Seq<CandidateSpan>, b: Seq<CandidateSpan>)
    requires
        distinct_spans(a),
        distinct_spans(b),
        within(a, b),
        within(b, a),
    ensures
        ranked(a) == ranked(b),
{
    let x = ranked(a);
    let y = ranked(b);
    lemma_ranked_strictly(a);
    lemma_ranked_strictly(b);
    assert forall|i: int| 0 <= i < x.len() implies member(y, #[trigger] x[i]) by {
        lemma_ranked_members(a, i);
        let j = choose|j: int| 0 <= j < a.len() && #[trigger] a[j] == x[i];
        assert(member(b, a[j]));
        let k = choose|k: int| 0 <= k < b.len() && #[trigger] b[k] == a[j];
        lemma_ranked_covers(b, k);
    }
    assert forall|i: int| 0 <= i < y.len() implies member(x, #[trigger] y[i]) by {
        lemma_ranked_members(b, i);
        let j = choose|j: int| 0 <= j < b.len() && #[trigger] b[j] == y[i];
        assert(member(a, b[j]));
        let k = choose|k: int| 0 <= k < a.len() && #[trigger] a[k] == b[j];
        lemma_ranked_covers(a, k);
    }
    lemma_strictly_ranked_unique(x, y);
}

/// Decides `ranks_before`.
pub fn span_ranks_before(a: &CandidateSpan, b: &CandidateSpan) -> (r: bool)
    ensures
        r == ranks_before(*a, *b),
{
    if a.base_score != b.base_score {
        return a.base_score > b.base_score;
    }
    match compare_text(&a.span_ref.doc_version_id, &b.span_ref.doc_version_id) {
        Rank::Before => true,
        Rank::After => false,
        Rank::Same => match compare_text(&a.span_ref.span_id, &b.span_ref.span_id) {
            Rank::Before => true,
            _ => false,
        },
    }
}

proof fn lemma_slot_step(sorted: Seq<CandidateSpan>, c: CandidateSpan, p: int)
    requires
        0 <= p < sorted.len(),
        ranks_before(sorted[p], c),
    ensures
        slot(sorted.skip(p), c) == 1 + slot(sorted.skip(p + 1), c),
{
    assert(sorted.skip(p).drop_first() =~= sorted.skip(p + 1));
}

/// Sorts the candidates into ranking order: the higher base score first
/// and, among equal base scores, the smaller identity. Candidates of equal
/// rank keep their order.
pub fn rank_candidates(candidates: Vec<CandidateSpan>) -> (sorted: Vec<CandidateSpan>)
    ensures
        sorted@ == ranked(candidates@),
        in_rank_order(sorted@),
        sorted@.to_multiset() == candidates@.to_multiset(),
{
    proof {
        lemma_ranked_in_order(candidates@);
        lemma_ranked_permutes(candidates@);
    }
    let mut input = candidates;
    let mut sorted: Vec<CandidateSpan> = Vec::new();
    let ghost all = input@;
    assert(all.skip(all.len() as int) =~= Seq::<CandidateSpan>::empty());
    while input.len() > 0
        invariant
            input@ == all.take(input@.len() as int),
            input@.len() <= all.len(),
            sorted@ == ranked(all.skip(input@.len() as int)),
        decreases input@.len(),
    {
        let ghost k = input@.len() - 1;
        let c = input.pop().unwrap();
        proof {
            assert(all.skip(k).drop_first() =~= all.skip(k + 1));
            assert(all.skip(k)[0] == c);
            assert(input@ =~= all.take(k));
            lemma_slot_in_range(sorted@, c);
        }
        let mut p: usize = 0;
        assert(sorted@.skip(0) =~= sorted@);
        while p < sorted.len() && span_ranks_before(&sorted[p], &c)
            invariant
                p <= sorted@.len(),
                slot(sorted@, c) == p + slot(sorted@.skip(p as int), c),
            decreases sorted@.len() - p,
        {
            proof {
                lemma_slot_step(sorted@, c, p as int);
            }
            p += 1;
        }
        sorted.insert(p, c);
    }
    assert(all.skip(0) =~= all);
    sorted
}

} // verus!
